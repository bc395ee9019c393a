# ntex_httparse

A push parser for HTTP/1.x, written in Verus: request lines, status lines,
header lines (resumable from a saved state) and chunk-size lines. Each parser
takes a buffer that may hold only the beginning of a message and answers
`Complete`, `Partial` (more bytes are needed) or an error.

- `src/` is the verified library. Each parser has a spec function over the
  buffer's bytes (`request_spec`, `response_spec`, `header_spec`,
  `chunk_size_spec`, ...) and its contract says that it returns exactly what
  that spec function gives; the parsers that work inside a buffer cursor
  also state where they leave it on every outcome (`*_stop`, `*_after`).
- `src/laws.rs` proves the laws of the library over those spec functions:
  a prefix of a buffer is partial or parses as the whole buffer, a header
  parse resumes from its saved state, keeps that state well formed and, when
  partial, can be completed by a line break; and the positions a parse
  returns lie within the bytes it consumed and can be read as strings.
- `tests/` runs the parsers on concrete inputs.
- `app/` gives copies of the error types with `Display` and
  `std::error::Error`.
