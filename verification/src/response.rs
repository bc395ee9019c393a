use vstd::prelude::*;

use crate::iter::Bytes;
use crate::utils::{
    all_in, empty_lines_spec, end_of, in_class, is_complete, lemma_scan_ge, lemma_scan_skip, lemma_scan_unique, left_at, moved_to, read_to, scan, skip_empty_lines,
    skip_spaces, spaces_spec, value_of, ByteClass, Step, CR, HTAB, LF, SP,
};
use crate::version::{parse_version_inner, version_spec};
use crate::{Error, SlicePos, State, Status};

verus! {

pub open spec fn digit(b: u8) -> bool {
    0x30 <= b <= 0x39
}

/// A three-digit status code at `p`.
pub open spec fn code_spec(s: Seq<u8>, p: int) -> Step<u16> {
    if p >= s.len() {
        Ok(Status::Partial)
    } else if !digit(s[p]) {
        Err(Error::Status)
    } else if p + 1 >= s.len() {
        Ok(Status::Partial)
    } else if !digit(s[p + 1]) {
        Err(Error::Status)
    } else if p + 2 >= s.len() {
        Ok(Status::Partial)
    } else if !digit(s[p + 2]) {
        Err(Error::Status)
    } else {
        Ok(
            Status::Complete(
                (
                    ((s[p] - 0x30) * 100 + (s[p + 1] - 0x30) * 10 + (s[p + 2] - 0x30)) as u16,
                    p + 3,
                ),
            ),
        )
    }
}

/// Where reading a status code at `p` leaves the cursor, whatever the
/// outcome: past the last byte it read.
pub open spec fn code_stop(s: Seq<u8>, p: int) -> int {
    if p >= s.len() {
        p
    } else if !digit(s[p]) {
        p + 1
    } else if p + 1 >= s.len() {
        p + 1
    } else if !digit(s[p + 1]) {
        p + 2
    } else if p + 2 >= s.len() {
        p + 2
    } else {
        p + 3
    }
}

/// Where reading a reason phrase at `p` leaves the cursor, whatever the
/// outcome: past the last byte it read.
pub open spec fn reason_stop(s: Seq<u8>, p: int) -> int {
    let e = scan(s, p, ByteClass::Field);
    if e >= s.len() {
        e
    } else if s[e] == CR {
        if e + 1 >= s.len() {
            e + 1
        } else {
            e + 2
        }
    } else {
        e + 1
    }
}

/// Some byte of `s` in `[p, e)` is obs-text (0x80 and above).
pub open spec fn has_obs_text(s: Seq<u8>, p: int, e: int) -> bool {
    exists|k: int| p <= k < e && #[trigger] s[k] >= 0x80
}

/// A reason phrase at `p` up to the end of the line. Its position is empty
/// where the phrase holds obs-text.
pub open spec fn reason_spec(s: Seq<u8>, p: int) -> Step<SlicePos> {
    let e = scan(s, p, ByteClass::Field);
    let pos = if has_obs_text(s, p, e) {
        SlicePos { start: 0, end: 0 }
    } else {
        SlicePos { start: p as usize, end: e as usize }
    };
    if e >= s.len() {
        Ok(Status::Partial)
    } else if s[e] == CR {
        if e + 1 >= s.len() {
            Ok(Status::Partial)
        } else if s[e + 1] == LF {
            Ok(Status::Complete((pos, e + 2)))
        } else {
            Err(Error::Status)
        }
    } else if s[e] == LF {
        Ok(Status::Complete((pos, e + 1)))
    } else {
        Err(Error::Status)
    }
}

/// A parsed Response.
#[derive(Copy, Clone, PartialEq, Eq, Debug)]
pub struct Response {
    /// Parsed response's http version.
    pub version: u8,
    /// Parsed response's code.
    pub code: u16,
    /// Parsed response's reason (start position, length).
    pub reason: SlicePos,
}

impl Default for Response {
    fn default() -> (r: Self)
        ensures
            r == (Response { version: 0, code: 0, reason: SlicePos { start: 0, end: 0 } }),
    {
        Response { version: 0, code: 0, reason: SlicePos::default() }
    }
}

/// What follows the status code at `q`: spaces and a reason phrase, or the
/// end of the line.
pub open spec fn status_tail_spec(res: Response, s: Seq<u8>, q: int) -> (
    Response,
    Result<Status<usize>, Error>,
) {
    let no_reason = Response { version: res.version, code: res.code, reason: SlicePos { start: 0, end: 0 } };
    if q >= s.len() {
        (res, Ok(Status::Partial))
    } else if s[q] == SP {
        match spaces_spec(s, q + 1) {
            Ok(Status::Complete((_, p4))) => match reason_spec(s, p4) {
                Ok(Status::Complete((reason, e))) => (
                    Response { version: res.version, code: res.code, reason: reason },
                    Ok(Status::Complete(e as usize)),
                ),
                Ok(Status::Partial) => (res, Ok(Status::Partial)),
                Err(e) => (res, Err(e)),
            },
            Ok(Status::Partial) => (res, Ok(Status::Partial)),
            Err(e) => (res, Err(e)),
        }
    } else if s[q] == CR {
        if q + 1 >= s.len() {
            (res, Ok(Status::Partial))
        } else if s[q + 1] == LF {
            (no_reason, Ok(Status::Complete((q + 2) as usize)))
        } else {
            (res, Err(Error::Status))
        }
    } else if s[q] == LF {
        (no_reason, Ok(Status::Complete((q + 1) as usize)))
    } else {
        (res, Err(Error::Status))
    }
}

/// A status line: empty lines, the version, empty lines again, a space and
/// any further spaces, the status code, then the rest of the line. Each
/// field of the response is set as soon as its part is read; on completion
/// the result is the length of the line.
pub open spec fn response_spec(res: Response, s: Seq<u8>) -> (Response, Result<Status<usize>, Error>) {
    match empty_lines_spec(s, 0) {
        Err(e) => (res, Err(e)),
        Ok(Status::Partial) => (res, Ok(Status::Partial)),
        Ok(Status::Complete((_, p1))) => match version_spec(s, p1) {
            Err(e) => (res, Err(e)),
            Ok(Status::Partial) => (res, Ok(Status::Partial)),
            Ok(Status::Complete((v, q1))) => {
                let r1 = Response { version: v, code: res.code, reason: res.reason };
                match empty_lines_spec(s, q1) {
                    Err(e) => (r1, Err(e)),
                    Ok(Status::Partial) => (r1, Ok(Status::Partial)),
                    Ok(Status::Complete((_, p2))) => {
                        if s[p2] != SP {
                            (r1, Err(Error::Version))
                        } else {
                            match spaces_spec(s, p2 + 1) {
                                Err(e) => (r1, Err(e)),
                                Ok(Status::Partial) => (r1, Ok(Status::Partial)),
                                Ok(Status::Complete((_, p3))) => match code_spec(s, p3) {
                                    Err(e) => (r1, Err(e)),
                                    Ok(Status::Partial) => (r1, Ok(Status::Partial)),
                                    Ok(Status::Complete((code, q3))) => status_tail_spec(
                                        Response { version: v, code: code, reason: res.reason },
                                        s,
                                        q3,
                                    ),
                                },
                            }
                        }
                    },
                }
            },
        },
    }
}

impl Response {
    /// Parse response code and reason
    pub fn parse(&mut self, src: &[u8]) -> (r: Result<Status<usize>, Error>)
        ensures
            (*final(self), r) == response_spec(*old(self), src@),
    {
        let ghost s = src@;
        let mut bytes = Bytes::new(src, State::default());
        proof {
            crate::utils::lemma_empty_lines(s, bytes.pos());
        }
        match skip_empty_lines(&mut bytes) {
            Ok(Status::Complete(())) => {},
            Ok(Status::Partial) => {
                return Ok(Status::Partial);
            },
            Err(e) => {
                return Err(e);
            },
        }
        // version
        self.version = match parse_version_inner(&mut bytes) {
            Ok(Status::Complete(v)) => v,
            Ok(Status::Partial) => {
                return Ok(Status::Partial);
            },
            Err(e) => {
                return Err(e);
            },
        };
        proof {
            crate::utils::lemma_empty_lines(s, bytes.pos());
        }
        match skip_empty_lines(&mut bytes) {
            Ok(Status::Complete(())) => {},
            Ok(Status::Partial) => {
                return Ok(Status::Partial);
            },
            Err(e) => {
                return Err(e);
            },
        }
        match bytes.next() {
            Some(b) => {
                if b != SP {
                    return Err(Error::Version);
                }
            },
            None => {
                return Ok(Status::Partial);
            },
        }
        bytes.commit();
        match skip_spaces(&mut bytes) {
            Ok(Status::Complete(())) => {},
            Ok(Status::Partial) => {
                return Ok(Status::Partial);
            },
            Err(e) => {
                return Err(e);
            },
        }
        // code
        self.code = match parse_code(&mut bytes) {
            Ok(Status::Complete(c)) => c,
            Ok(Status::Partial) => {
                return Ok(Status::Partial);
            },
            Err(e) => {
                return Err(e);
            },
        };
        // RFC7230 says there must be 'SP' and then reason-phrase, but notes
        // it is only there for legacy reasons. With the reason-phrase completely
        // optional (and preferred to be omitted) in HTTP2, we'll just
        // handle any response that doesn't include a reason-phrase, because
        // it's more lenient, and we don't care anyways.
        //
        // So, a SP means parse a reason-phrase.
        // A newline means go to headers.
        // Anything else we'll say is a malformed status.
        let b = match bytes.next() {
            Some(b) => b,
            None => {
                return Ok(Status::Partial);
            },
        };
        self.reason = if b == SP {
            match skip_spaces(&mut bytes) {
                Ok(Status::Complete(())) => {},
                Ok(Status::Partial) => {
                    return Ok(Status::Partial);
                },
                Err(e) => {
                    return Err(e);
                },
            }
            bytes.commit();
            match parse_reason(&mut bytes) {
                Ok(Status::Complete(reason)) => reason,
                Ok(Status::Partial) => {
                    return Ok(Status::Partial);
                },
                Err(e) => {
                    return Err(e);
                },
            }
        } else if b == CR {
            match bytes.next() {
                Some(b2) => {
                    if b2 != LF {
                        return Err(Error::Status);
                    }
                },
                None => {
                    return Ok(Status::Partial);
                },
            }
            bytes.commit();
            SlicePos::default()
        } else if b == LF {
            bytes.commit();
            SlicePos::default()
        } else {
            return Err(Error::Status);
        };
        Ok(Status::Complete(bytes.cursor()))
    }
}

fn parse_code(bytes: &mut Bytes) -> (r: Result<Status<u16>, Error>)
    requires
        old(bytes).st.cursor <= old(bytes).slice@.len(),
    ensures
        r == value_of(code_spec(old(bytes).bytes(), old(bytes).pos())),
        is_complete(code_spec(old(bytes).bytes(), old(bytes).pos())) ==> read_to(
            *old(bytes),
            *final(bytes),
            end_of(code_spec(old(bytes).bytes(), old(bytes).pos())),
        ),
        left_at(
            *old(bytes),
            *final(bytes),
            code_stop(old(bytes).bytes(), old(bytes).pos()),
            old(bytes).st.start as int,
        ),
{
    let hundreds = match bytes.next() {
        Some(b) => {
            if !(0x30 <= b && b <= 0x39) {
                return Err(Error::Status);
            }
            b
        },
        None => {
            return Ok(Status::Partial);
        },
    };
    let tens = match bytes.next() {
        Some(b) => {
            if !(0x30 <= b && b <= 0x39) {
                return Err(Error::Status);
            }
            b
        },
        None => {
            return Ok(Status::Partial);
        },
    };
    let ones = match bytes.next() {
        Some(b) => {
            if !(0x30 <= b && b <= 0x39) {
                return Err(Error::Status);
            }
            b
        },
        None => {
            return Ok(Status::Partial);
        },
    };
    Ok(
        Status::Complete(
            (hundreds - 0x30) as u16 * 100 + (tens - 0x30) as u16 * 10 + (ones - 0x30) as u16,
        ),
    )
}

/// From RFC 7230: `reason-phrase = *( HTAB / SP / VCHAR / obs-text )`.
/// Non-US-ASCII content in the reason phrase has been obsoleted and made
/// opaque: where it occurs, the phrase's position is left empty.
fn parse_reason(bytes: &mut Bytes) -> (r: Result<Status<SlicePos>, Error>)
    requires
        old(bytes).st.start == old(bytes).st.cursor <= old(bytes).slice@.len(),
    ensures
        r == value_of(reason_spec(old(bytes).bytes(), old(bytes).pos())),
        is_complete(reason_spec(old(bytes).bytes(), old(bytes).pos())) ==> moved_to(
            *old(bytes),
            *final(bytes),
            end_of(reason_spec(old(bytes).bytes(), old(bytes).pos())),
        ),
        left_at(
            *old(bytes),
            *final(bytes),
            reason_stop(old(bytes).bytes(), old(bytes).pos()),
            if is_complete(reason_spec(old(bytes).bytes(), old(bytes).pos())) {
                reason_stop(old(bytes).bytes(), old(bytes).pos())
            } else {
                old(bytes).pos()
            },
        ),
{
    let ghost s = bytes.bytes();
    let ghost p = bytes.pos();
    let mut seen_obs_text = false;
    loop
        invariant
            bytes.slice == old(bytes).slice,
            s == old(bytes).bytes(),
            p == old(bytes).pos(),
            bytes.slice@ == s,
            bytes.st.start == p,
            bytes.st.state == old(bytes).st.state,
            p <= bytes.st.cursor <= s.len(),
            all_in(s, p, bytes.st.cursor as int, ByteClass::Field),
            seen_obs_text == has_obs_text(s, p, bytes.st.cursor as int),
        decreases s.len() - bytes.st.cursor,
    {
        let ghost i = bytes.pos();
        let b = match bytes.next() {
            Some(b) => b,
            None => {
                proof {
                    lemma_scan_skip(s, p, i, ByteClass::Field);
                    lemma_scan_ge(s, i, ByteClass::Field);
                }
                return Ok(Status::Partial);
            },
        };
        if b == CR || b == LF || !(b == HTAB || b == SP || (0x21 <= b && b <= 0x7e) || b >= 0x80) {
            proof {
                lemma_scan_skip(s, p, i, ByteClass::Field);
                lemma_scan_unique(s, i, ByteClass::Field, i);
            }
        }
        if b == CR {
            match bytes.next() {
                Some(b2) => {
                    if b2 != LF {
                        return Err(Error::Status);
                    }
                },
                None => {
                    return Ok(Status::Partial);
                },
            }
            return Ok(
                Status::Complete(
                    if seen_obs_text {
                        // obs-text characters were found, so return the
                        // fallback empty position
                        bytes.commit();
                        SlicePos::default()
                    } else {
                        // all bytes up till `i` must have been HTAB / SP / VCHAR
                        bytes.slice_position(2)
                    },
                ),
            );
        } else if b == LF {
            return Ok(
                Status::Complete(
                    if seen_obs_text {
                        bytes.commit();
                        SlicePos::default()
                    } else {
                        bytes.slice_position(1)
                    },
                ),
            );
        } else if !(b == HTAB || b == SP || (0x21 <= b && b <= 0x7e) || b >= 0x80) {
            return Err(Error::Status);
        } else if b >= 0x80 {
            seen_obs_text = true;
        }
        proof {
            assert(in_class(ByteClass::Field, s[i]));
            if b >= 0x80 {
                assert(s[i] >= 0x80);
            }
        }
    }
}

} // verus!
