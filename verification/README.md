# yaml

The input side of a YAML parser (version 0.2.5), written and proved in Verus.

- `src/utf.rs` — what one decoding step yields on UTF-8, UTF-16LE and
  UTF-16BE input, which characters a stream may hold, encoding detection
  from a byte order mark, and the UTF-8 encoding of code points; with the
  lemmas that decoding composes and that accepted UTF-8 is passed through
  unchanged.
- `src/reader.rs` — the parser's reader: inputs (in memory, or a handler of
  the user's, whose contract names the bytes it has handed out), encoding
  detection, `yaml_parser_update_buffer`, and the laws that tie its buffer
  to the decoding of the input.
- `src/memory.rs`, `src/buffer.rs`, `src/stack.rs`, `src/queue.rs` — memory
  blocks, growable strings, stacks and queues.
- `src/token.rs`, `src/version.rs` — tokens and their release; the version.
- `app/` — what stays outside the proofs: file input, the C entry points of
  the scanner, the C forms of the version queries.
