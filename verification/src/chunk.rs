use vstd::prelude::*;

use crate::iter::Bytes;
use crate::utils::{all_in, lemma_scan, lemma_scan_skip, lemma_scan_unique, scan, ByteClass, CR, HTAB, LF, SP};
use crate::{InvalidChunkSize, State, Status};

verus! {

pub const SEMICOLON: u8 = 0x3b;

/// The value of one hexadecimal digit.
pub open spec fn hex_val(b: u8) -> nat {
    if b <= 0x39 {
        (b - 0x30) as nat
    } else if b <= 0x46 {
        (b - 0x41 + 10) as nat
    } else {
        (b - 0x61 + 10) as nat
    }
}

/// The number that a string of hexadecimal digits writes, most significant
/// digit first.
pub open spec fn hex_number(d: Seq<u8>) -> nat
    decreases d.len(),
{
    if d.len() == 0 {
        0
    } else {
        hex_number(d.drop_last()) * 16 + hex_val(d.last())
    }
}

pub open spec fn pow16(n: nat) -> nat
    decreases n,
{
    if n == 0 {
        1
    } else {
        16 * pow16((n - 1) as nat)
    }
}

/// The end of a chunk-size line whose CR is expected at `r`.
pub open spec fn chunk_line_end(s: Seq<u8>, r: int, h: int) -> Result<
    Status<(usize, u64)>,
    InvalidChunkSize,
> {
    if r + 1 >= s.len() {
        Ok(Status::Partial)
    } else if s[r + 1] == LF {
        Ok(Status::Complete(((r + 2) as usize, hex_number(s.take(h)) as u64)))
    } else {
        Err(InvalidChunkSize)
    }
}

/// A chunk-size line: at most 16 hexadecimal digits (none is read as 0),
/// then optional spaces and tabs, then optionally `;` and an extension of
/// any bytes but CR, then CRLF. On completion: the length of the line and
/// the size the digits write.
pub open spec fn chunk_size_spec(s: Seq<u8>) -> Result<Status<(usize, u64)>, InvalidChunkSize> {
    let h = scan(s, 0, ByteClass::Hex);
    let w = scan(s, h, ByteClass::Lws);
    if h > 16 {
        Err(InvalidChunkSize)
    } else if w >= s.len() {
        Ok(Status::Partial)
    } else if s[w] == SEMICOLON {
        chunk_line_end(s, scan(s, w + 1, ByteClass::NotCr), h)
    } else if s[w] == CR {
        chunk_line_end(s, w, h)
    } else {
        Err(InvalidChunkSize)
    }
}

proof fn lemma_hex_number_step(s: Seq<u8>, i: int)
    requires
        0 <= i < s.len(),
    ensures
        hex_number(s.take(i + 1)) == hex_number(s.take(i)) * 16 + hex_val(s[i]),
{
    assert(s.take(i + 1).drop_last() =~= s.take(i));
}

proof fn lemma_pow16_16()
    ensures
        pow16(15) * 16 == 0x1_0000_0000_0000_0000,
{
    reveal_with_fuel(pow16, 16);
}

/// Parse a buffer of bytes as a chunk size.
///
/// The return value, if complete and successful, includes the index of the
/// buffer that parsing stopped at, and the size of the following chunk.
pub fn parse_chunk_size(buf: &[u8]) -> (r: Result<Status<(usize, u64)>, InvalidChunkSize>)
    ensures
        r == chunk_size_spec(buf@),
{
    let ghost s = buf@;
    let mut bytes = Bytes::new(buf, State { start: 0, cursor: 0, state: 0 });
    let mut size: u64 = 0;
    let mut in_chunk_size = true;
    let mut in_ext = false;
    let mut count: usize = 0;
    let ghost mut h: int = 0;
    let ghost mut w: int = 0;
    loop
        invariant
            s == buf@,
            bytes.slice@ == s,
            bytes.st.cursor <= s.len(),
            in_ext ==> !in_chunk_size,
            0 <= h,
            in_ext ==> h <= w,
            in_chunk_size ==> {
                &&& bytes.st.cursor == count <= 16
                &&& all_in(s, 0, count as int, ByteClass::Hex)
                &&& size == hex_number(s.take(count as int))
                &&& size < pow16(count as nat)
            },
            !in_chunk_size ==> {
                &&& h == scan(s, 0, ByteClass::Hex) <= 16
                &&& h < bytes.st.cursor
                &&& size == hex_number(s.take(h))
            },
            !in_chunk_size && !in_ext ==> all_in(s, h, bytes.st.cursor as int, ByteClass::Lws),
            in_ext ==> {
                &&& w == scan(s, h, ByteClass::Lws)
                &&& w < bytes.st.cursor
                &&& s[w] == SEMICOLON
                &&& all_in(s, w + 1, bytes.st.cursor as int, ByteClass::NotCr)
            },
        decreases s.len() - bytes.st.cursor,
    {
        let ghost i = bytes.st.cursor as int;
        let b = match bytes.next() {
            Some(b) => b,
            None => {
                proof { lemma_line_cut(s, h, w, i, in_chunk_size, in_ext); }
                return Ok(Status::Partial);
            },
        };
        if in_chunk_size && 0x30 <= b && b <= 0x39 || in_chunk_size && (0x61 <= b && b <= 0x66
            || 0x41 <= b && b <= 0x46) {
            if count > 15 {
                proof {
                    assert(all_in(s, 0, i + 1, ByteClass::Hex));
                    lemma_scan_skip(s, 0, i + 1, ByteClass::Hex);
                }
                return Err(InvalidChunkSize);
            }
            let v: u64 = if b <= 0x39 {
                (b - 0x30) as u64
            } else if b <= 0x46 {
                (b - 0x41 + 10) as u64
            } else {
                (b - 0x61 + 10) as u64
            };
            proof {
                lemma_hex_number_step(s, i);
                lemma_pow16_16();
                assert(pow16(count as nat) <= pow16(15)) by {
                    lemma_pow16_mono(count as nat, 15);
                }
                assert(pow16((count + 1) as nat) == 16 * pow16(count as nat));
                assert(all_in(s, 0, i + 1, ByteClass::Hex));
            }
            count = count + 1;
            size = size * 16 + v;
        } else if b == CR {
            let b2 = match bytes.next() {
                Some(b2) => b2,
                None => {
                    proof { lemma_line_partial(s, h, w, i, in_chunk_size, in_ext); }
                    return Ok(Status::Partial);
                },
            };
            proof { lemma_line_at_cr(s, h, w, i, in_chunk_size, in_ext); }
            if b2 == LF {
                return Ok(Status::Complete((bytes.cursor(), size)));
            } else {
                return Err(InvalidChunkSize);
            }
        } else if b == SEMICOLON && !in_ext {
            proof {
                if in_chunk_size {
                    lemma_scan_skip(s, 0, i, ByteClass::Hex);
                    lemma_scan(s, i, ByteClass::Hex);
                    lemma_scan_unique(s, i, ByteClass::Lws, i);
                    h = i;
                } else {
                    lemma_scan_skip(s, h, i, ByteClass::Lws);
                    lemma_scan(s, i, ByteClass::Lws);
                }
                w = i;
            }
            in_ext = true;
            in_chunk_size = false;
        } else if (b == HTAB || b == SP) && !in_ext && !in_chunk_size {
        } else if (b == HTAB || b == SP) && in_chunk_size {
            proof {
                lemma_scan_skip(s, 0, i, ByteClass::Hex);
                lemma_scan(s, i, ByteClass::Hex);
                h = i;
            }
            in_chunk_size = false;
        } else if in_ext {
        } else {
            proof {
                if in_chunk_size {
                    lemma_scan_skip(s, 0, i, ByteClass::Hex);
                    lemma_scan(s, i, ByteClass::Hex);
                    lemma_scan_unique(s, i, ByteClass::Lws, i);
                } else {
                    lemma_scan_skip(s, h, i, ByteClass::Lws);
                    lemma_scan(s, i, ByteClass::Lws);
                }
            }
            return Err(InvalidChunkSize);
        }
    }
}

proof fn lemma_pow16_mono(a: nat, b: nat)
    requires
        a <= b,
    ensures
        pow16(a) <= pow16(b),
    decreases b - a,
{
    if a < b {
        lemma_pow16_mono(a, (b - 1) as nat);
    }
}

/// Where a CR ends the size and extension part of the line, the line's end
/// is checked at that CR.
proof fn lemma_line_at_cr(s: Seq<u8>, h: int, w: int, i: int, in_chunk: bool, in_ext: bool)
    requires
        0 <= i < s.len(),
        s[i] == CR,
        in_ext ==> !in_chunk,
        0 <= h,
        in_ext ==> h <= w,
        in_chunk ==> i <= 16 && all_in(s, 0, i, ByteClass::Hex),
        !in_chunk ==> h == scan(s, 0, ByteClass::Hex) <= 16 && h < i,
        !in_chunk && !in_ext ==> all_in(s, h, i, ByteClass::Lws),
        in_ext ==> {
            &&& w == scan(s, h, ByteClass::Lws)
            &&& w < i
            &&& s[w] == SEMICOLON
            &&& all_in(s, w + 1, i, ByteClass::NotCr)
        },
    ensures
        chunk_size_spec(s) == chunk_line_end(s, i, if in_chunk { i } else { h }),
{
    if in_chunk {
        lemma_scan_skip(s, 0, i, ByteClass::Hex);
        lemma_scan(s, i, ByteClass::Hex);
        lemma_scan_unique(s, i, ByteClass::Lws, i);
    } else if !in_ext {
        lemma_scan_skip(s, h, i, ByteClass::Lws);
        lemma_scan(s, i, ByteClass::Lws);
    } else {
        lemma_scan_skip(s, w + 1, i, ByteClass::NotCr);
        lemma_scan(s, i, ByteClass::NotCr);
    }
}

/// A buffer that ends inside the size and extension part is partial.
proof fn lemma_line_cut(s: Seq<u8>, h: int, w: int, i: int, in_chunk: bool, in_ext: bool)
    requires
        i == s.len(),
        in_ext ==> !in_chunk,
        0 <= h,
        in_ext ==> h <= w,
        in_chunk ==> i <= 16 && all_in(s, 0, i, ByteClass::Hex),
        !in_chunk ==> h == scan(s, 0, ByteClass::Hex) <= 16 && h < i,
        !in_chunk && !in_ext ==> all_in(s, h, i, ByteClass::Lws),
        in_ext ==> {
            &&& w == scan(s, h, ByteClass::Lws)
            &&& w < i
            &&& s[w] == SEMICOLON
            &&& all_in(s, w + 1, i, ByteClass::NotCr)
        },
    ensures
        chunk_size_spec(s) == Ok::<Status<(usize, u64)>, InvalidChunkSize>(Status::Partial),
{
    if in_chunk {
        lemma_scan_skip(s, 0, i, ByteClass::Hex);
        lemma_scan(s, i, ByteClass::Hex);
        lemma_scan(s, i, ByteClass::Lws);
        assert(scan(s, 0, ByteClass::Hex) == i);
    } else if !in_ext {
        lemma_scan_skip(s, h, i, ByteClass::Lws);
        lemma_scan(s, i, ByteClass::Lws);
    } else {
        lemma_scan_skip(s, w + 1, i, ByteClass::NotCr);
        lemma_scan(s, i, ByteClass::NotCr);
    }
}

proof fn lemma_line_partial(s: Seq<u8>, h: int, w: int, i: int, in_chunk: bool, in_ext: bool)
    requires
        0 <= i == s.len() - 1,
        s[i] == CR,
        in_ext ==> !in_chunk,
        0 <= h,
        in_ext ==> h <= w,
        in_chunk ==> i <= 16 && all_in(s, 0, i, ByteClass::Hex),
        !in_chunk ==> h == scan(s, 0, ByteClass::Hex) <= 16 && h < i,
        !in_chunk && !in_ext ==> all_in(s, h, i, ByteClass::Lws),
        in_ext ==> {
            &&& w == scan(s, h, ByteClass::Lws)
            &&& w < i
            &&& s[w] == SEMICOLON
            &&& all_in(s, w + 1, i, ByteClass::NotCr)
        },
    ensures
        chunk_size_spec(s) == Ok::<Status<(usize, u64)>, InvalidChunkSize>(Status::Partial),
{
    lemma_line_at_cr(s, h, w, i, in_chunk, in_ext);
}

} // verus!
