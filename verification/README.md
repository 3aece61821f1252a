# fastmulp_core

A `multipart/form-data` parser (RFC 7578, RFC 2046 section 5.1.1) whose logic is
proved with Verus. Parts keep the range of their body in the original buffer
instead of a copy.

## Layout

- `src/` — the verified library.
  - `parser.rs`: `parse` and the part-by-part `MultipartParser`, specified by
    `spec_parse` / `spec_next_part`.
  - `boundary.rs`, `boundary_scan.rs`: boundary validation, the `boundary`
    parameter of a `Content-Type`, and the search for delimiter lines.
  - `header.rs`, `content_disposition/`: header lines, `Content-Disposition`
    parameters, HTML form escapes and RFC 8187 `filename*` values.
  - `part.rs`, `text.rs`, `error.rs`: the values handed to callers.
  - `bindings.rs`: the plain-value form of the parts that the JavaScript
    bindings hand out (UTF-8 strings, `u32` offsets).
  - `laws.rs`: properties of every parse (body ranges ordered, delimited and
    starting after the blank line, valid headers, the boundary taken from a
    `Content-Type` regardless of letter case, preamble and epilogue passed
    over), proved over the specifications; `shifting.rs` and `casefold.rs`
    hold the lemmas on positions and on letter case that they rest on.
  - `buffers.rs`: appending to the `SmallVec`-backed buffers, in place while
    their inline storage has room.
  - `deps.rs`: the trusted declarations of `memchr`, `SmallVec` and
    `core::str::from_utf8` that the verified code calls.
- `tests/` — tests run against the compiled library.
- `app/` — Node.js (`napi`) and browser (`wasm-bindgen`) entry points, which
  convert JavaScript values and call the library.
