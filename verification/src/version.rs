use vstd::prelude::*;

use crate::iter::Bytes;
use crate::utils::{end_of, is_complete, left_at, read_to, value_of, Step};
use crate::{Error, State, Status};

verus! {

/// `HTTP/1.` : what every accepted version starts with.
pub open spec fn version_prefix() -> Seq<u8> {
    seq![0x48u8, 0x54, 0x54, 0x50, 0x2f, 0x31, 0x2e]
}

/// `HTTP/1.0` for minor version 0 and `HTTP/1.1` for 1.
pub open spec fn version_bytes(minor: u8) -> Seq<u8> {
    version_prefix().push((0x30 + minor) as u8)
}

/// An HTTP version at `p`: `HTTP/1.0` reads as 0 and `HTTP/1.1` as 1. Fewer
/// than eight bytes are partial while they begin `HTTP/1.`.
pub open spec fn version_spec(s: Seq<u8>, p: int) -> Step<u8> {
    if p + 8 <= s.len() {
        let w = s.subrange(p, p + 8);
        if w == version_bytes(0) {
            Ok(Status::Complete((0u8, p + 8)))
        } else if w == version_bytes(1) {
            Ok(Status::Complete((1u8, p + 8)))
        } else {
            Err(Error::Version)
        }
    } else if version_prefix().take(s.len() - p) == s.subrange(p, s.len() as int) {
        Ok(Status::Partial)
    } else {
        Err(Error::Version)
    }
}

/// How many bytes from `p + k` on agree with `HTTP/1.` from its `k`-th
/// byte on, counted from 0.
pub open spec fn version_matched(s: Seq<u8>, p: int, k: int) -> int
    decreases 7 - k,
{
    if 0 <= k < 7 && 0 <= p + k < s.len() && s[p + k] == version_prefix()[k] {
        version_matched(s, p, k + 1)
    } else {
        k
    }
}

/// Where reading a version at `p` leaves the cursor, whatever the outcome:
/// past the eight bytes where they are there; otherwise past the first byte
/// that disagrees with `HTTP/1.`, or at the end of the buffer.
pub open spec fn version_stop(s: Seq<u8>, p: int) -> int {
    if p + 8 <= s.len() {
        p + 8
    } else if p + version_matched(s, p, 0) >= s.len() {
        s.len() as int
    } else {
        p + version_matched(s, p, 0) + 1
    }
}

proof fn lemma_version_matched_skip(s: Seq<u8>, p: int, j: int, i: int)
    requires
        0 <= j <= i <= 7,
        0 <= p,
        p + i <= s.len(),
        forall|k: int| j <= k < i ==> s[p + k] == version_prefix()[k],
    ensures
        version_matched(s, p, j) == version_matched(s, p, i),
    decreases i - j,
{
    if j < i {
        lemma_version_matched_skip(s, p, j + 1, i);
    }
}

/// Parse request's version
pub fn parse_version(src: &[u8]) -> (r: Result<Status<u8>, Error>)
    ensures
        r == value_of(version_spec(src@, 0)),
{
    let mut bytes = Bytes::new(src, State::default());
    parse_version_inner(&mut bytes)
}

pub fn parse_version_inner(bytes: &mut Bytes) -> (r: Result<Status<u8>, Error>)
    requires
        old(bytes).st.cursor <= old(bytes).slice@.len(),
    ensures
        r == value_of(version_spec(old(bytes).bytes(), old(bytes).pos())),
        is_complete(version_spec(old(bytes).bytes(), old(bytes).pos())) ==> read_to(
            *old(bytes),
            *final(bytes),
            end_of(version_spec(old(bytes).bytes(), old(bytes).pos())),
        ),
        left_at(
            *old(bytes),
            *final(bytes),
            version_stop(old(bytes).bytes(), old(bytes).pos()),
            old(bytes).st.start as int,
        ),
{
    let ghost s = bytes.bytes();
    let ghost p = bytes.pos();
    if let Some(eight) = bytes.peek_n(8) {
        bytes.advance(8);
        let prefix_ok = eight[0] == 0x48 && eight[1] == 0x54 && eight[2] == 0x54 && eight[3] == 0x50
            && eight[4] == 0x2f && eight[5] == 0x31 && eight[6] == 0x2e;
        proof {
            let w = s.subrange(p, p + 8);
            assert(prefix_ok ==> (w == version_bytes(0) <==> eight[7] == 0x30)) by {
                if prefix_ok && eight[7] == 0x30 {
                    assert(w =~= version_bytes(0));
                }
                if w == version_bytes(0) {
                    assert(w[7] == version_bytes(0)[7]);
                }
            }
            assert(prefix_ok ==> (w == version_bytes(1) <==> eight[7] == 0x31)) by {
                if prefix_ok && eight[7] == 0x31 {
                    assert(w =~= version_bytes(1));
                }
                if w == version_bytes(1) {
                    assert(w[7] == version_bytes(1)[7]);
                }
            }
            if !prefix_ok {
                assert(w != version_bytes(0) && w != version_bytes(1)) by {
                    if w == version_bytes(0) || w == version_bytes(1) {
                        assert(w[0] == 0x48 && w[1] == 0x54 && w[2] == 0x54 && w[3] == 0x50);
                        assert(w[4] == 0x2f && w[5] == 0x31 && w[6] == 0x2e);
                    }
                }
            }
        }
        return if prefix_ok && eight[7] == 0x30 {
            Ok(Status::Complete(0))
        } else if prefix_ok && eight[7] == 0x31 {
            Ok(Status::Complete(1))
        } else {
            Err(Error::Version)
        };
    }
    // If there aren't at least 8 bytes, we still want to detect early
    // if this is a valid version or not. If it is, we'll return Partial.
    let expected: [u8; 7] = [0x48, 0x54, 0x54, 0x50, 0x2f, 0x31, 0x2e];
    assert(expected@ =~= version_prefix());
    let mut i: usize = 0;
    while i < 7
        invariant
            0 <= i <= 7,
            s == old(bytes).bytes(),
            p == old(bytes).pos(),
            p + 8 > s.len(),
            p <= s.len(),
            expected@ == version_prefix(),
            bytes.slice@ == s,
            bytes.st.cursor == p + i,
            p + i <= s.len(),
            bytes.slice == old(bytes).slice,
            bytes.st.start == old(bytes).st.start,
            bytes.st.state == old(bytes).st.state,
            forall|k: int| 0 <= k < i ==> s[p + k] == version_prefix()[k],
        decreases 7 - i,
    {
        match bytes.next() {
            Some(b) => {
                if b != expected[i] {
                    proof {
                        lemma_version_matched_skip(s, p, 0, i as int);
                        let t = s.subrange(p, s.len() as int);
                        assert(t[i as int] != version_prefix().take(s.len() - p)[i as int]);
                    }
                    return Err(Error::Version);
                }
            },
            None => {
                proof {
                    lemma_version_matched_skip(s, p, 0, i as int);
                    assert(version_prefix().take(s.len() - p) =~= s.subrange(p, s.len() as int));
                }
                return Ok(Status::Partial);
            },
        }
        i = i + 1;
    }
    proof {
        lemma_version_matched_skip(s, p, 0, 7);
        assert(version_prefix().take(s.len() - p) =~= s.subrange(p, s.len() as int));
    }
    Ok(Status::Partial)
}

} // verus!
