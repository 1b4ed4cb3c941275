# hex_float

Parsing hexadecimal floating-point literals, such as WGSL's `0x1.8p-3f`,
verified with Verus.

- `src/significance.rs` — the arithmetic model: bit length, keeping the 64
  most significant bits of a number, and the core step that appends one hex
  digit below a 64-bit mantissa.
- `src/hex.rs` — hexadecimal digit characters and the value of a run of them.
- `src/whole.rs`, `src/fraction.rs` — accumulators for the whole-number and
  fractional digits of a literal.
- `src/parts.rs`, `src/construct.rs`, `src/push_whole.rs`,
  `src/push_fractional.rs` — `Parts`, a literal being parsed, and its flags.
- `src/format.rs`, `src/assemble.rs` — IEEE 754 binary formats, and building
  their bit patterns from `Parts`, reporting rounding and overflow.
- `src/shl_exact.rs` — a left shift that refuses to lose bits.
- `src/wgsl.rs` — the WGSL hexadecimal literal grammar.
- `app/` — turning the verified bit patterns into Rust floating-point values.
- `tests/` — tests of the library.

The library's contracts describe every result in terms of the exact value of
the digits read: what is kept is that value's 64 most significant bits, and
`exact` records whether anything below them was lost.
