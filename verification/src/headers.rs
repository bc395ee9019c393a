use vstd::prelude::*;

use crate::iter::Bytes;
use crate::utils::{
    field_char, match_header_name_vectored, match_header_value_vectored, is_header_name_token,
    is_header_value_token, lemma_scan_ge, scan, tchar, ByteClass, CR, HTAB,
    LF, SP,
};
use crate::{Error, SlicePos, State, Status};

verus! {

pub const COLON: u8 = 0x3a;

/// Represents a parsed header.
#[derive(Copy, Clone, PartialEq, Eq, Debug)]
pub struct Header {
    /// The name portion of a header.
    pub name: SlicePos,
    /// The value portion of a header.
    pub value: SlicePos,
}

impl Default for Header {
    fn default() -> (r: Self)
        ensures
            r == (Header { name: SlicePos { start: 0, end: 0 }, value: SlicePos { start: 0, end: 0 } }),
    {
        Header { name: SlicePos::default(), value: SlicePos::default() }
    }
}

/// Header parse result.
#[derive(Copy, Clone, PartialEq, Eq, Debug)]
pub enum HeaderParsed {
    /// A header line ended; the index just past it.
    Header(usize),
    /// The empty line that ends the head; its length from the accepted start.
    Eof(usize),
}

/// What a header parse leaves behind: the parse state, the header and the
/// result.
pub type HeaderOutcome = (State, Header, Result<Status<HeaderParsed>, Error>);

/// Bytes that trailing white space of a header value is made of.
pub open spec fn trailing_ws(b: u8) -> bool {
    b == SP || b == HTAB || b == CR || b == LF
}

/// The end of a header value that stops before `q`: `q` moved back over
/// trailing white space.
pub open spec fn trim_end(s: Seq<u8>, q: int) -> int
    decreases q,
{
    if 0 < q <= s.len() && trailing_ws(s[q - 1]) {
        trim_end(s, q - 1)
    } else {
        q
    }
}

pub proof fn lemma_trim_end_le(s: Seq<u8>, q: int)
    requires
        0 <= q <= s.len(),
    ensures
        0 <= trim_end(s, q) <= q,
    decreases q,
{
    if 0 < q && trailing_ws(s[q - 1]) {
        lemma_trim_end_le(s, q - 1);
    }
}

pub open spec fn moved(st: State, c: int) -> State {
    State { start: st.start, cursor: c as usize, state: st.state }
}

/// A header line ended at `q`: the parse starts over there.
pub open spec fn line_done(h: Header, q: int) -> HeaderOutcome {
    (
        State { start: q as usize, cursor: q as usize, state: 0 },
        h,
        Ok(Status::Complete(HeaderParsed::Header(q as usize))),
    )
}

/// At the start of a line: an empty line ends the head; otherwise a header
/// name starts here.
pub open spec fn line_start_spec(st: State, h: Header, s: Seq<u8>) -> HeaderOutcome {
    let c = st.cursor as int;
    if c >= s.len() {
        (st, h, Ok(Status::Partial))
    } else if s[c] == CR {
        if c + 1 >= s.len() {
            (moved(st, c + 1), h, Ok(Status::Partial))
        } else if s[c + 1] == LF {
            (moved(st, c + 2), h, Ok(Status::Complete(HeaderParsed::Eof((c + 2 - st.start) as usize))))
        } else {
            (moved(st, c + 2), h, Err(Error::NewLine))
        }
    } else if s[c] == LF {
        (moved(st, c + 1), h, Ok(Status::Complete(HeaderParsed::Eof((c + 1 - st.start) as usize))))
    } else if !tchar(s[c]) {
        (moved(st, c + 1), h, Err(Error::HeaderName))
    } else {
        name_spec(
            State { start: st.start, cursor: (c + 1) as usize, state: 1 },
            Header { name: SlicePos { start: c as usize, end: h.name.end }, value: h.value },
            s,
        )
    }
}

/// Inside a header name: token bytes up to the colon.
pub open spec fn name_spec(st: State, h: Header, s: Seq<u8>) -> HeaderOutcome {
    let e = scan(s, st.cursor as int, ByteClass::Token);
    if e >= s.len() {
        (moved(st, e), h, Ok(Status::Partial))
    } else if s[e] == COLON {
        gap_spec(
            State { start: st.start, cursor: (e + 1) as usize, state: 2 },
            Header { name: SlicePos { start: h.name.start, end: e as usize }, value: h.value },
            s,
        )
    } else {
        (moved(st, e + 1), h, Err(Error::HeaderName))
    }
}

/// Between the colon and the value: spaces and tabs, then the value or the
/// end of the line.
pub open spec fn gap_spec(st: State, h: Header, s: Seq<u8>) -> HeaderOutcome {
    let w = scan(s, st.cursor as int, ByteClass::Lws);
    let empty = Header { name: h.name, value: SlicePos { start: 0, end: 0 } };
    if w >= s.len() {
        (moved(st, w), h, Ok(Status::Partial))
    } else if field_char(s[w]) {
        value_spec(
            State { start: st.start, cursor: (w + 1) as usize, state: 3 },
            Header { name: h.name, value: SlicePos { start: w as usize, end: h.value.end } },
            s,
        )
    } else if s[w] == CR {
        if w + 1 >= s.len() {
            (moved(st, w + 1), h, Ok(Status::Partial))
        } else if s[w + 1] == LF {
            line_done(empty, w + 2)
        } else {
            (moved(st, w + 2), h, Err(Error::HeaderValue))
        }
    } else if s[w] == LF {
        line_done(empty, w + 1)
    } else {
        (moved(st, w + 1), h, Err(Error::HeaderValue))
    }
}

/// Inside a header value: value bytes up to the end of the line; the value
/// ends before its trailing white space.
pub open spec fn value_spec(st: State, h: Header, s: Seq<u8>) -> HeaderOutcome {
    let e = scan(s, st.cursor as int, ByteClass::Field);
    if e >= s.len() {
        (moved(st, e), h, Ok(Status::Partial))
    } else if s[e] == CR {
        if e + 1 >= s.len() {
            (moved(st, e + 1), h, Ok(Status::Partial))
        } else if s[e + 1] == LF {
            value_done(h, s, e + 2)
        } else {
            (moved(st, e + 2), h, Err(Error::HeaderValue))
        }
    } else if s[e] == LF {
        value_done(h, s, e + 1)
    } else {
        (moved(st, e + 1), h, Err(Error::HeaderValue))
    }
}

pub open spec fn value_done(h: Header, s: Seq<u8>, q: int) -> HeaderOutcome {
    line_done(
        Header {
            name: h.name,
            value: SlicePos { start: h.value.start, end: trim_end(s, q) as usize },
        },
        q,
    )
}

/// The length of the empty line that ends the head would be negative: in
/// state 0 the line break under the cursor ends before the accepted start.
pub open spec fn eof_underflows(st: State, s: Seq<u8>) -> bool {
    let c = st.cursor as int;
    &&& st.state == 0
    &&& c < s.len()
    &&& {
        ||| s[c] == CR && c + 1 < s.len() && s[c + 1] == LF && st.start > c + 2
        ||| s[c] == LF && st.start > c + 1
    }
}

/// One pass of the header parser over `s` from the state `st`.
pub open spec fn header_spec(st: State, h: Header, s: Seq<u8>) -> HeaderOutcome {
    if st.state == 0 {
        line_start_spec(st, h, s)
    } else if st.state == 1 {
        name_spec(st, h, s)
    } else if st.state == 2 {
        gap_spec(st, h, s)
    } else if st.state == 3 {
        value_spec(st, h, s)
    } else {
        line_done(h, st.cursor as int)
    }
}

impl Header {
    /// Parse a buffer of bytes as header.
    ///
    /// The return value, if complete and successful, is the index of the
    /// buffer that parsing stopped at: just past a header line
    /// (`HeaderParsed::Header`) or past the empty line that ends the head
    /// (`HeaderParsed::Eof`).
    pub fn parse(&mut self, src: &[u8]) -> (r: Result<Status<HeaderParsed>, Error>)
        ensures
            ({
                let (_, h, res) = header_spec(State { start: 0, cursor: 0, state: 0 }, *old(self), src@);
                *final(self) == h && r == res
            }),
    {
        let mut bytes = Bytes::new(src, State::default());
        parse_header_iter_uninit(&mut bytes, self)
    }

    /// Parse a buffer of bytes as header, going on from the state `st` that
    /// an earlier partial parse of the beginning of the same buffer left.
    /// The state must not put the accepted start past an empty line under
    /// its cursor (`eof_underflows`): the length of that line, which ends
    /// the head, would be negative.
    pub fn parse_with_state(&mut self, src: &[u8], st: &mut State) -> (r: Result<
        Status<HeaderParsed>,
        Error,
    >)
        requires
            !eof_underflows(*old(st), src@),
        ensures
            (*final(st), *final(self), r) == header_spec(*old(st), *old(self), src@),
    {
        let mut bytes = Bytes::new(src, *st);
        let r = parse_header_iter_uninit(&mut bytes, self);
        *st = bytes.st;
        r
    }
}

fn parse_header_iter_uninit(bytes: &mut Bytes, header: &mut Header) -> (r: Result<
    Status<HeaderParsed>,
    Error,
>)
    requires
        !eof_underflows(old(bytes).st, old(bytes).bytes()),
    ensures
        final(bytes).slice == old(bytes).slice,
        (final(bytes).st, *final(header), r) == header_spec(old(bytes).st, *old(header), old(bytes).bytes()),
{
    let ghost s = bytes.bytes();
    let ghost goal = header_spec(bytes.st, *header, s);
    proof {
        lemma_scan_ge(s, bytes.pos() + 1, ByteClass::Token);
        lemma_scan_ge(s, bytes.pos(), ByteClass::Token);
    }
    // header eof
    if bytes.st.state == 0 {
        // a newline here means the head is over!
        let b = match bytes.next() {
            Some(b) => b,
            None => {
                return Ok(Status::Partial);
            },
        };
        if b == CR {
            match bytes.next() {
                Some(b2) => {
                    if b2 != LF {
                        return Err(Error::NewLine);
                    }
                },
                None => {
                    return Ok(Status::Partial);
                },
            }
            return Ok(Status::Complete(HeaderParsed::Eof(bytes.cursor() - bytes.start())));
        } else if b == LF {
            return Ok(Status::Complete(HeaderParsed::Eof(bytes.cursor() - bytes.start())));
        } else if !is_header_name_token(b) {
            return Err(Error::HeaderName);
        }
        bytes.st.state = 1;
        header.name.start = bytes.cursor() - 1;
        assert(header_spec(bytes.st, *header, s) == goal);
    }
    // parse header name until colon
    if bytes.st.state == 1 {
        proof {
            lemma_scan_ge(s, bytes.pos(), ByteClass::Token);
        }
        match_header_name_vectored(bytes);
        let b = match bytes.next() {
            Some(b) => b,
            None => {
                return Ok(Status::Partial);
            },
        };
        if b == COLON {
            bytes.st.state = 2;
            header.name.end = bytes.cursor() - 1;
        } else {
            return Err(Error::HeaderName);
        }
        assert(header_spec(bytes.st, *header, s) == goal);
    }
    // header value start position
    if bytes.st.state == 2 {
        let ghost c0 = bytes.pos();
        let ghost st0 = bytes.st;
        let ghost h0 = *header;
        // eat white space between colon and value
        loop
            invariant_except_break
                bytes.st.start == st0.start,
                bytes.st.state == 2,
                *header == h0,
                c0 <= bytes.st.cursor,
                scan(s, bytes.pos(), ByteClass::Lws) == scan(s, c0, ByteClass::Lws),
            invariant
                bytes.slice == old(bytes).slice,
                s == old(bytes).bytes(),
                goal == header_spec(old(bytes).st, *old(header), s),
                bytes.slice@ == s,
                c0 == st0.cursor,
                gap_spec(st0, h0, s) == goal,
                st0.state == 2,
            ensures
                bytes.st.state == 3,
                bytes.st.cursor <= s.len(),
                header_spec(bytes.st, *header, s) == goal,
            decreases s.len() - bytes.pos(),
        {
            let b = match bytes.next() {
                Some(b) => b,
                None => {
                    return Ok(Status::Partial);
                },
            };
            if b == SP || b == HTAB {
                continue ;
            }
            if is_header_value_token(b) {
                bytes.st.state = 3;
                header.value.start = bytes.cursor() - 1;
                assert(header_spec(bytes.st, *header, s) == goal);
                break ;
            }
            if b == CR {
                match bytes.next() {
                    Some(b2) => {
                        if b2 != LF {
                            return Err(Error::HeaderValue);
                        }
                    },
                    None => {
                        return Ok(Status::Partial);
                    },
                }
            } else if b != LF {
                return Err(Error::HeaderValue);
            }
            // An empty value: its position is reset to 0..0.
            header.value.reset();
            bytes.st.state = 0;
            bytes.commit();
            return Ok(Status::Complete(HeaderParsed::Header(bytes.cursor())));
        }
    }
    // header value
    if bytes.st.state == 3 {
        let ghost st3 = bytes.st;
        let ghost h3 = *header;
        assert(value_spec(st3, h3, s) == goal);
        match_header_value_vectored(bytes);
        // check ctl
        let b = match bytes.next() {
            Some(b) => b,
            None => {
                return Ok(Status::Partial);
            },
        };
        if b == CR {
            match bytes.next() {
                Some(b2) => {
                    if b2 != LF {
                        return Err(Error::HeaderValue);
                    }
                },
                None => {
                    return Ok(Status::Partial);
                },
            }
        } else if b != LF {
            return Err(Error::HeaderValue);
        }
        // trim trailing whitespace in the header
        let ghost q = bytes.pos();
        assert(value_done(h3, s, q) == goal);
        // trim trailing whitespace in the header
        let mut end = bytes.cursor();
        loop
            invariant
                bytes.slice@ == s,
                end <= bytes.st.cursor <= s.len(),
                bytes.st.cursor == q,
                trim_end(s, end as int) == trim_end(s, bytes.st.cursor as int),
            ensures
                end == trim_end(s, q),
            decreases end,
        {
            if end == 0 {
                break ;
            }
            match bytes.peek_behind(bytes.cursor() - end + 1) {
                Some(b) => {
                    if b == SP || b == HTAB || b == CR || b == LF {
                        end = end - 1;
                    } else {
                        break ;
                    }
                },
                None => {
                    break ;
                },
            }
        }
        assert(end == trim_end(s, q));
        header.value.end = end;
        assert(*header == value_done(h3, s, q).1);
    }
    bytes.st.state = 0;
    bytes.commit();
    Ok(Status::Complete(HeaderParsed::Header(bytes.cursor())))
}

} // verus!
