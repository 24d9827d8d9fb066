# msrtc_rans

A rANS entropy coder (byte-renormalising and 64-bit variants) with a PMF
layer, bypass coding of out-of-range values, persistent multipart streams,
and the differential and hardening courts that hold it against a reference
oracle. The library is written in Verus: every function in `src/` carries a
contract that the verifier proves.

## Layout

- `src/` — the verified library.
  - `arithmetic`, `raw_byte`, `raw_64`, `sink`, `source`, `variant`, `error`:
    reciprocal division and the raw coders, with the roundtrip and
    prepared-equals-raw laws.
  - `pmf`, `entropy`, `stream`, `roundtrip`, `message_bounds`, `buffer`: the
    PMF layer, the entropy encoder and decoder, multipart streams, their
    roundtrip laws, where a message ends (no strict prefix decodes, trailing
    data stays unread), and the resizable output buffer.
  - `casefile`, `hex`, `wire`, `text`, `verdict`, `oracle`, `court`, `seal`,
    `provenance`: court records, their encodings, reply validation, and
    sealed receipts and transcripts.
  - `corpus`, `raw_cases`, `raw_corpus`, `decoder_cases`, `pmf_cases`,
    `pmf_courts`, `stream_cases`, `stream_court`, `hardening_court`: the
    courts' corpora and judges.
  - `adapter`, `bench`: the oracle adapter's and the benchmark's vocabulary.
- `tests/` — executable tests of the library.
- `app/` — the command-line program (court runs against the Docker oracle,
  sealing, benchmark) and the Python extension module. It performs the I/O
  and floating-point work that the library leaves out.

## Verifying

Run Verus on `src/lib.rs` with the crates listed in `Cargo.toml`. The
library trusts two wrappers: SHA-256 from `sha2` (in `casefile`) and
`char::is_alphanumeric` (in `oracle`).
