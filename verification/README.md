# qubit-codec-misc

Byte and text codecs whose behaviour is stated in Verus contracts and proved:
hexadecimal bytes, Base64 (whole texts and single quanta), C string literal
bytes, C integer literals, percent-encoded UTF-8 text and
`application/x-www-form-urlencoded` text.

## Layout

- `src/` — the verified library. Each codec module holds the mathematical
  model of its format as spec functions, the executable codec with contracts
  over that model, and the laws that relate encoding and decoding
  (`lemma_*_roundtrip`, `lemma_c_string_streaming`,
  `lemma_form_matches_percent_without_plus`, ...).
  - `text_support.rs`, `seq_support.rs` — UTF-8 and sequence facts shared by
    the codecs, and the few standard-library calls they rely on.
  - `internal/` — parser pieces shared by several codecs.
  - `hex_roundtrip.rs` — the proof that hexadecimal decoding undoes encoding.
- `tests/` — tests run against the compiled library.
- `app/` — the codecs behind the `qubit_codec` traits (`Codec`,
  `ValueEncoder`, `ValueDecoder`) and the error type with `Display` and
  `std::error::Error` through `thiserror`.

The `base64` crate does the whole-text Base64 work and `percent-encoding`
writes percent escapes; both are called through small trusted wrappers whose
contracts state what those crates document.
