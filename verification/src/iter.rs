use vstd::prelude::*;

use crate::{SlicePos, State};

verus! {

/// The byte at index `i` of `s`, if there is one.
pub open spec fn byte_at(s: Seq<u8>, i: int) -> Option<u8> {
    if 0 <= i < s.len() {
        Some(s[i])
    } else {
        None
    }
}

/// A cursor over a byte buffer. `st.start` is the first byte not yet
/// accepted, `st.cursor` the next byte to read.
pub struct Bytes<'a> {
    pub slice: &'a [u8],
    pub st: State,
}

impl<'a> Bytes<'a> {
    pub open spec fn bytes(&self) -> Seq<u8> {
        self.slice@
    }

    pub open spec fn pos(&self) -> int {
        self.st.cursor as int
    }

    pub fn new(slice: &'a [u8], st: State) -> (b: Bytes<'a>)
        ensures
            b.slice == slice,
            b.st == st,
    {
        Bytes { slice, st }
    }

    pub fn start(&self) -> (r: usize)
        ensures
            r == self.st.start,
    {
        self.st.start
    }

    pub fn cursor(&self) -> (r: usize)
        ensures
            r == self.st.cursor,
    {
        self.st.cursor
    }

    pub fn peek(&self) -> (r: Option<u8>)
        ensures
            r == byte_at(self.bytes(), self.pos()),
    {
        if self.st.cursor < self.slice.len() {
            Some(self.slice[self.st.cursor])
        } else {
            None
        }
    }

    /// Peek at byte `n` ahead of cursor.
    pub fn peek_ahead(&self, n: usize) -> (r: Option<u8>)
        requires
            self.st.cursor + n <= usize::MAX,
        ensures
            r == byte_at(self.bytes(), self.pos() + n),
    {
        let i = self.st.cursor + n;
        if i < self.slice.len() {
            Some(self.slice[i])
        } else {
            None
        }
    }

    /// Peek at byte `n` behind the cursor.
    pub fn peek_behind(&self, n: usize) -> (r: Option<u8>)
        ensures
            r == (if n > self.st.cursor {
                None
            } else {
                byte_at(self.bytes(), self.pos() - n)
            }),
    {
        if n > self.st.cursor {
            None
        } else {
            let i = self.st.cursor - n;
            if i < self.slice.len() {
                Some(self.slice[i])
            } else {
                None
            }
        }
    }

    /// The `n` bytes from the cursor on, if the buffer holds that many.
    pub fn peek_n(&self, n: usize) -> (r: Option<&'a [u8]>)
        ensures
            r is Some <==> self.pos() + n <= self.bytes().len(),
            r matches Some(w) ==> w@ == self.bytes().subrange(self.pos(), self.pos() + n),
            r is Some ==> self.pos() + n <= usize::MAX,
    {
        let len = self.slice.len();
        if self.st.cursor <= len && n <= len - self.st.cursor {
            Some(vstd::slice::slice_subrange(self.slice, self.st.cursor, self.st.cursor + n))
        } else {
            None
        }
    }

    /// Advance cursor by `n`; the buffer must hold those bytes.
    pub fn advance(&mut self, n: usize)
        requires
            old(self).st.cursor + n <= old(self).slice.len(),
        ensures
            final(self).slice == old(self).slice,
            final(self).st.cursor == old(self).st.cursor + n,
            final(self).st.start == old(self).st.start,
            final(self).st.state == old(self).st.state,
    {
        self.st.cursor = self.st.cursor + n;
    }

    /// Reads the byte under the cursor and moves past it.
    pub fn next(&mut self) -> (r: Option<u8>)
        ensures
            final(self).slice == old(self).slice,
            r == byte_at(old(self).bytes(), old(self).pos()),
            final(self).st.cursor == (if r is Some { old(self).st.cursor + 1 } else { old(self).st.cursor as int }),
            final(self).st.start == old(self).st.start,
            final(self).st.state == old(self).st.state,
    {
        if self.st.cursor < self.slice.len() {
            let b = self.slice[self.st.cursor];
            self.st.cursor = self.st.cursor + 1;
            Some(b)
        } else {
            None
        }
    }

    /// The position from the accepted start to `skip` bytes before the
    /// cursor; everything up to the cursor is then accepted.
    pub fn slice_position(&mut self, skip: usize) -> (r: SlicePos)
        requires
            skip <= old(self).st.cursor,
        ensures
            final(self).slice == old(self).slice,
            r == (SlicePos { start: old(self).st.start, end: (old(self).st.cursor - skip) as usize }),
            final(self).st.start == old(self).st.cursor,
            final(self).st.cursor == old(self).st.cursor,
            final(self).st.state == old(self).st.state,
    {
        let start = self.st.start;
        let end = self.st.cursor - skip;
        self.commit();
        SlicePos { start, end }
    }

    /// The bytes from the accepted start to `skip` bytes before the cursor;
    /// everything up to the cursor is then accepted.
    pub fn slice_skip(&mut self, skip: usize) -> (r: &'a [u8])
        requires
            old(self).st.start + skip <= old(self).st.cursor <= old(self).slice@.len(),
        ensures
            final(self).slice == old(self).slice,
            r@ == old(self).bytes().subrange(old(self).st.start as int, old(self).st.cursor - skip),
            final(self).st.start == old(self).st.cursor,
            final(self).st.cursor == old(self).st.cursor,
            final(self).st.state == old(self).st.state,
    {
        let r = vstd::slice::slice_subrange(self.slice, self.st.start, self.st.cursor - skip);
        self.commit();
        r
    }

    /// Accepts everything up to the cursor.
    pub fn commit(&mut self)
        ensures
            final(self).slice == old(self).slice,
            final(self).st.start == old(self).st.cursor,
            final(self).st.cursor == old(self).st.cursor,
            final(self).st.state == old(self).st.state,
    {
        self.st.start = self.st.cursor;
    }
}

} // verus!
