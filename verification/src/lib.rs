//! A push parser for HTTP/1.x request lines, status lines, header lines and
//! chunk-size lines. Every parser works on a byte buffer that may hold only
//! the beginning of the message: incomplete input is answered with
//! `Status::Partial`, never with an error.

use vstd::prelude::*;

pub mod chunk;
pub mod headers;
mod iter;
pub mod laws;
pub mod request;
pub mod response;
pub mod utils;
pub mod version;
pub mod well_formed;

pub use crate::chunk::parse_chunk_size;
pub use crate::headers::{Header, HeaderParsed};
pub use crate::request::{parse_method, parse_uri, Request};
pub use crate::response::Response;
pub use crate::version::parse_version;

verus! {

/// An error in parsing.
#[derive(Copy, Clone, PartialEq, Eq, Debug)]
pub enum Error {
    /// Invalid byte in header name.
    HeaderName,
    /// Invalid byte in header value.
    HeaderValue,
    /// Invalid byte in new line.
    NewLine,
    /// Invalid byte in Response status.
    Status,
    /// Invalid byte where token is required.
    Token,
    /// Parsed more headers than provided buffer can contain.
    TooManyHeaders,
    /// Invalid byte in HTTP version.
    Version,
}

impl Error {
    /// A short description of the error.
    pub fn description_str(self) -> (r: &'static str)
        ensures
            r@ == (match self {
                Error::HeaderName => "invalid header name"@,
                Error::HeaderValue => "invalid header value"@,
                Error::NewLine => "invalid new line"@,
                Error::Status => "invalid response status"@,
                Error::Token => "invalid token"@,
                Error::TooManyHeaders => "too many headers"@,
                Error::Version => "invalid HTTP version"@,
            }),
    {
        match self {
            Error::HeaderName => "invalid header name",
            Error::HeaderValue => "invalid header value",
            Error::NewLine => "invalid new line",
            Error::Status => "invalid response status",
            Error::Token => "invalid token",
            Error::TooManyHeaders => "too many headers",
            Error::Version => "invalid HTTP version",
        }
    }
}

impl InvalidChunkSize {
    /// A short description of the error.
    pub fn description_str(&self) -> (r: &'static str)
        ensures
            r@ == "invalid chunk size"@,
    {
        "invalid chunk size"
    }
}

/// A Result of any parsing action.
///
/// If the input is invalid, an `Error` will be returned. Note that incomplete
/// data is not considered invalid, and so will not return an error, but rather
/// a `Ok(Status::Partial)`.
pub type Result<T> = core::result::Result<Status<T>, Error>;

/// An error in parsing a chunk size.
#[derive(Copy, Clone, PartialEq, Eq, Debug)]
pub struct InvalidChunkSize;

/// The result of a successful parse pass.
///
/// `Complete` is used when the buffer contained the complete value.
/// `Partial` is used when parsing did not reach the end of the expected value,
/// but no invalid data was found.
#[derive(Copy, Clone, PartialEq, Eq, Debug)]
pub enum Status<T> {
    /// The completed result.
    Complete(T),
    /// A partial result.
    Partial,
}

impl<T> Status<T> {
    /// Convenience method to check if status is complete.
    pub fn is_complete(&self) -> (r: bool)
        ensures
            r == (*self is Complete),
    {
        match *self {
            Status::Complete(..) => true,
            Status::Partial => false,
        }
    }

    /// Convenience method to check if status is partial.
    pub fn is_partial(&self) -> (r: bool)
        ensures
            r == (*self is Partial),
    {
        match *self {
            Status::Complete(..) => false,
            Status::Partial => true,
        }
    }

    /// Convenience method to unwrap a Complete value. The status must be
    /// `Complete`.
    pub fn unwrap(self) -> (t: T)
        requires
            self is Complete,
        ensures
            self == Status::Complete(t),
    {
        match self {
            Status::Complete(t) => t,
            Status::Partial => vstd::pervasive::unreached(),
        }
    }
}

/// A slice position.
#[derive(Copy, Clone, PartialEq, Eq, Debug)]
pub struct SlicePos {
    pub start: usize,
    pub end: usize,
}

impl SlicePos {
    /// Sets both ends of the position to zero.
    pub fn reset(&mut self)
        ensures
            *final(self) == (SlicePos { start: 0, end: 0 }),
    {
        self.start = 0;
        self.end = 0;
    }
}

impl Default for SlicePos {
    fn default() -> (r: Self)
        ensures
            r == (SlicePos { start: 0, end: 0 }),
    {
        SlicePos { start: 0, end: 0 }
    }
}

/// Where a resumable header parse stands: the first byte not yet accepted
/// (`start`), the next byte to read (`cursor`) and the part of the header
/// line that the parse is in (`state`: 0 before the name, 1 in the name, 2
/// between the colon and the value, 3 in the value).
#[derive(Copy, Clone, PartialEq, Eq, Debug)]
pub struct State {
    pub start: usize,
    pub cursor: usize,
    pub state: u8,
}

impl Default for State {
    fn default() -> (r: Self)
        ensures
            r == (State { start: 0, cursor: 0, state: 0 }),
    {
        State { start: 0, cursor: 0, state: 0 }
    }
}

} // verus!
