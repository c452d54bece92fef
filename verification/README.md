# broto

A byte encoder/decoder for converting values to and from byte streams, verified
with Verus.

- `src/` is the verified library. `codec` holds the traits `Encode`, `Decode` and
  `Codec`, stated over a mathematical model of each value (`Model`); `ints`, `text`,
  `containers` and `shapes` give the encodings of integers, strings, tuples,
  `Option`, `Result`, `Vec` and an example struct and enum; `tags` assigns enum
  discriminants from `#[tag(N)]` attributes; `laws` states what holds of every
  encodable type (decoding inverts encoding, consecutive values decode in turn,
  truncated input is reported as an I/O error).
- `app/` moves bytes over `std::io` and `futures_io` streams, carries floats as the
  bit patterns of their integers, and holds the error type with its
  `std::error::Error` impl.
- `tests/` runs the library on concrete values.
