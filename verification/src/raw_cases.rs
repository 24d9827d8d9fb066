//! Cases of the raw encoder differential court: sequences of `(start, freq)`
//! symbols at one scale, coded by the raw `put_raw` or prepared `put` path
//! of either variant, their oracle casefile, their input hashes, and the
//! deterministic case corpus.
use crate::casefile::{
    sha256, sha_hex, Comparison, DifferentialResult, InputHashes, NativeResult, OracleResult,
    ResidualClassification, ResolutionState,
};
use crate::oracle::{classify_error, classify_error_spec, compare_bytes, compare_spec, OracleResponse};
use crate::text::{join, raw_error_text};
use crate::verdict::{court_record, hashes_are, is_record, native_is, oracle_is};
use crate::entropy::{
    byte_coded, byte_message, lemma_byte_coded_push, lemma_r64_coded_push, r64_coded, r64_message,
};
use crate::error::RawRansError;
use crate::raw_64::{r64_encode_all, r64_flush_units, r64_lower, Rans64EncSymbol, Rans64Encoder};
use crate::raw_byte::{
    all_valid, byte_encode_all, byte_lower, check_symbol_spec, symbol_is_valid, valid_symbol, RansByteEncSymbol,
    RansByteEncoder, RawOp,
};
use crate::sink::VecSink;
use crate::stream::units_to_le_bytes;
use crate::wire::{pairs_bytes, pairs_le, push_pairs, push_u32, u32_le};
use crate::Freq;
use vstd::prelude::*;

verus! {

/// A single raw primitive test case.
#[derive(Debug, Clone)]
pub struct RawCase {
    /// Case seed.
    pub seed: u64,
    /// 0 = Rans64, 1 = RansByte.
    pub variant: u32,
    /// 0 = raw `put_raw`, 1 = prepared `put`.
    pub mode: u32,
    /// Scale bits shared by all symbols.
    pub scale_bits: Freq,
    /// Sequence of `(start, freq)` tuples, in coding order.
    pub symbols: Vec<(Freq, Freq)>,
}

/// Per-field SHA-256 hashes (lower-case hex) of a raw encoder case.
#[derive(Debug, Clone)]
pub struct RawInputHashes {
    /// Hash of the variant word.
    pub variant_sha256: String,
    /// Hash of the mode word.
    pub mode_sha256: String,
    /// Hash of the scale-bits word.
    pub scale_bits_sha256: String,
    /// Hash of all `(start, freq)` words.
    pub symbols_sha256: String,
    /// Hash of the whole casefile.
    pub casefile_sha256: String,
}

/// The operations that code `symbols` at `scale_bits` (raw or prepared).
pub open spec fn symbol_ops(symbols: Seq<(u32, u32)>, scale_bits: u32, prepared: bool) -> Seq<RawOp> {
    symbols.map_values(|p: (u32, u32)| (p.0 as nat, p.1 as nat, scale_bits as nat, prepared))
}

/// The first symbol (in coding order) that the checked constructor of a
/// prepared symbol rejects, with its error.
pub open spec fn first_symbol_error(symbols: Seq<(u32, u32)>, scale_bits: u32, max_safe: nat) -> Option<
    RawRansError,
>
    decreases symbols.len(),
{
    if symbols.len() == 0 {
        None
    } else {
        match first_symbol_error(symbols.drop_last(), scale_bits, max_safe) {
            Some(e) => Some(e),
            None => match check_symbol_spec(
                symbols.last().0 as nat,
                symbols.last().1 as nat,
                scale_bits as nat,
                max_safe,
            ) {
                Err(e) => Some(e),
                Ok(_) => None,
            },
        }
    }
}

/// The largest scale a variant code accepts (RansByte 30, Rans64 31).
pub open spec fn max_scale_of(variant: u32) -> nat {
    if variant == 1 {
        30
    } else {
        31
    }
}

/// The message of a variant code for coded operations.
pub open spec fn variant_message(variant: u32, ops: Seq<RawOp>) -> Seq<u8> {
    if variant == 1 {
        byte_message(ops)
    } else {
        r64_message(ops)
    }
}

/// The result of coding `symbols` with one variant: the raw path always
/// codes; the prepared path fails at the first rejected symbol.
pub open spec fn code_symbols_spec(variant: u32, symbols: Seq<(u32, u32)>, scale_bits: u32, prepared: bool) -> Result<
    Seq<u8>,
    RawRansError,
> {
    if prepared {
        match first_symbol_error(symbols, scale_bits, max_scale_of(variant)) {
            Some(e) => Err(e),
            None => Ok(variant_message(variant, symbol_ops(symbols, scale_bits, true))),
        }
    } else {
        Ok(variant_message(variant, symbol_ops(symbols, scale_bits, false)))
    }
}

/// The casefile bytes of a raw case: variant, mode, scale bits, symbol
/// count, then the symbols.
pub open spec fn raw_case_wire(c: RawCase) -> Seq<u8> {
    u32_le(c.variant) + u32_le(c.mode) + u32_le(c.scale_bits) + u32_le(c.symbols@.len() as u32)
        + pairs_le(c.symbols@)
}

/// A case the native encoder can run without violating the raw path's
/// preconditions: raw-mode symbols are valid for the variant.
pub open spec fn raw_encodable(c: RawCase) -> bool {
    (c.mode == 0 && (c.variant == 0 || c.variant == 1)) ==> all_valid(
        symbol_ops(c.symbols@, c.scale_bits, false),
        max_scale_of(c.variant),
    )
}

/// The native encoding of a raw case.
pub open spec fn raw_encode_spec(c: RawCase) -> Result<Seq<u8>, RawRansError> {
    if c.variant != 0 && c.variant != 1 {
        Err(RawRansError::InvalidParameters)
    } else if c.mode == 0 {
        code_symbols_spec(c.variant, c.symbols@, c.scale_bits, false)
    } else if c.mode == 1 {
        code_symbols_spec(c.variant, c.symbols@, c.scale_bits, true)
    } else {
        Err(RawRansError::InvalidParameters)
    }
}

/// Once a prefix has an error, every longer prefix has the same one.
proof fn lemma_first_error_stable(s: Seq<(u32, u32)>, sb: u32, m: nat, i: int, j: int)
    requires
        0 <= i <= j <= s.len(),
        first_symbol_error(s.subrange(0, i), sb, m) is Some,
    ensures
        first_symbol_error(s.subrange(0, j), sb, m) == first_symbol_error(s.subrange(0, i), sb, m),
    decreases j - i,
{
    if j > i {
        lemma_first_error_stable(s, sb, m, i, j - 1);
        assert(s.subrange(0, j).drop_last() =~= s.subrange(0, j - 1));
    }
}

/// The operations of a one-longer prefix.
proof fn lemma_symbol_ops_push(s: Seq<(u32, u32)>, sb: u32, prepared: bool, i: int)
    requires
        0 <= i < s.len(),
    ensures
        symbol_ops(s.subrange(0, i + 1), sb, prepared) == symbol_ops(s.subrange(0, i), sb, prepared).push(
            (s[i].0 as nat, s[i].1 as nat, sb as nat, prepared),
        ),
{
    assert(symbol_ops(s.subrange(0, i + 1), sb, prepared) =~= symbol_ops(s.subrange(0, i), sb, prepared).push(
        (s[i].0 as nat, s[i].1 as nat, sb as nat, prepared),
    ));
}

/// Code `symbols` at `scale_bits` on a fresh RansByte encoder and flush.
pub fn code_symbols_byte(symbols: &[(Freq, Freq)], scale_bits: Freq, prepared: bool) -> (r: Result<
    Vec<u8>,
    RawRansError,
>)
    requires
        !prepared ==> all_valid(symbol_ops(symbols@, scale_bits, false), 30),
    ensures
        match code_symbols_spec(1, symbols@, scale_bits, prepared) {
            Ok(b) => r is Ok && r->Ok_0@ == b,
            Err(e) => r == Err::<Vec<u8>, RawRansError>(e),
        },
{
    let mut encoder: RansByteEncoder = RansByteEncoder::new(VecSink::new(4096));
    proof {
        assert(symbols@.subrange(0, 0) =~= Seq::<(u32, u32)>::empty());
        assert(symbol_ops(symbols@.subrange(0, 0), scale_bits, prepared) =~= Seq::<RawOp>::empty());
        assert(byte_encode_all(byte_lower(), Seq::<RawOp>::empty()).0 + Seq::<u8>::empty() =~= Seq::<
            u8,
        >::empty());
    }
    let mut i: usize = 0;
    while i < symbols.len()
        invariant
            i <= symbols@.len(),
            encoder.wf(),
            !prepared ==> all_valid(symbol_ops(symbols@, scale_bits, false), 30),
            byte_coded(
                encoder,
                byte_lower(),
                Seq::empty(),
                symbol_ops(symbols@.subrange(0, i as int), scale_bits, prepared),
            ),
            prepared ==> first_symbol_error(symbols@.subrange(0, i as int), scale_bits, 30) is None,
        decreases symbols@.len() - i,
    {
        let (start, freq) = symbols[i];
        let ghost e0 = encoder;
        let ghost op: RawOp = (start as nat, freq as nat, scale_bits as nat, prepared);
        proof {
            lemma_symbol_ops_push(symbols@, scale_bits, prepared, i as int);
            assert(symbols@.subrange(0, i as int + 1).drop_last() =~= symbols@.subrange(0, i as int));
        }
        if prepared {
            match RansByteEncSymbol::try_new(start, freq, scale_bits) {
                Ok(sym) => {
                    encoder.put(&sym);
                },
                Err(e) => {
                    proof {
                        lemma_first_error_stable(
                            symbols@,
                            scale_bits,
                            30,
                            i as int + 1,
                            symbols@.len() as int,
                        );
                        assert(symbols@.subrange(0, symbols@.len() as int) =~= symbols@);
                    }
                    return Err(e);
                },
            }
        } else {
            proof {
                let ops = symbol_ops(symbols@, scale_bits, false);
                assert(ops[i as int] == op);
                assert(valid_symbol(ops[i as int].0, ops[i as int].1, ops[i as int].2, 30));
            }
            encoder.put_raw(start, freq, scale_bits);
        }
        proof {
            lemma_byte_coded_push(
                e0,
                encoder,
                byte_lower(),
                Seq::empty(),
                symbol_ops(symbols@.subrange(0, i as int), scale_bits, prepared),
                op,
            );
        }
        i += 1;
    }
    proof {
        assert(symbols@.subrange(0, symbols@.len() as int) =~= symbols@);
    }
    encoder.flush();
    let bytes: Vec<u8> = encoder.into_sink().encoded();
    proof {
        let ops = symbol_ops(symbols@, scale_bits, prepared);
        assert(byte_encode_all(0x80_0000, ops).0 + Seq::<u8>::empty() =~= byte_encode_all(
            0x80_0000,
            ops,
        ).0);
    }
    Ok(bytes)
}

/// The units of a Rans64 message: the flushed state, then the output.
pub open spec fn r64_units_message(ops: Seq<RawOp>) -> Seq<u32> {
    let (out, xn) = r64_encode_all(r64_lower(), ops);
    r64_flush_units(xn) + out
}

/// Code `symbols` at `scale_bits` on a fresh Rans64 encoder, flush, and
/// give the units as little-endian bytes.
pub fn code_symbols_64(symbols: &[(Freq, Freq)], scale_bits: Freq, prepared: bool) -> (r: Result<
    Vec<u8>,
    RawRansError,
>)
    requires
        !prepared ==> all_valid(symbol_ops(symbols@, scale_bits, false), 31),
    ensures
        match code_symbols_spec(0, symbols@, scale_bits, prepared) {
            Ok(b) => r is Ok && r->Ok_0@ == b,
            Err(e) => r == Err::<Vec<u8>, RawRansError>(e),
        },
{
    match code_symbols_64_units(symbols, scale_bits, prepared) {
        Ok(units) => Ok(units_to_le_bytes(units.as_slice())),
        Err(e) => Err(e),
    }
}

/// Code `symbols` at `scale_bits` on a fresh Rans64 encoder and flush: the
/// encoded units (see `r64_units_message`).
pub fn code_symbols_64_units(symbols: &[(Freq, Freq)], scale_bits: Freq, prepared: bool) -> (r: Result<
    Vec<u32>,
    RawRansError,
>)
    requires
        !prepared ==> all_valid(symbol_ops(symbols@, scale_bits, false), 31),
    ensures
        prepared ==> match first_symbol_error(symbols@, scale_bits, 31) {
            Some(e) => r == Err::<Vec<u32>, RawRansError>(e),
            None => r is Ok && r->Ok_0@ == r64_units_message(symbol_ops(symbols@, scale_bits, true)),
        },
        !prepared ==> r is Ok && r->Ok_0@ == r64_units_message(symbol_ops(symbols@, scale_bits, false)),
{
    let mut encoder: Rans64Encoder = Rans64Encoder::new(VecSink::new(4096));
    proof {
        assert(symbols@.subrange(0, 0) =~= Seq::<(u32, u32)>::empty());
        assert(symbol_ops(symbols@.subrange(0, 0), scale_bits, prepared) =~= Seq::<RawOp>::empty());
        assert(r64_encode_all(r64_lower(), Seq::<RawOp>::empty()).0 + Seq::<u32>::empty() =~= Seq::<
            u32,
        >::empty());
    }
    let mut i: usize = 0;
    while i < symbols.len()
        invariant
            i <= symbols@.len(),
            encoder.wf(),
            !prepared ==> all_valid(symbol_ops(symbols@, scale_bits, false), 31),
            r64_coded(
                encoder,
                r64_lower(),
                Seq::empty(),
                symbol_ops(symbols@.subrange(0, i as int), scale_bits, prepared),
            ),
            prepared ==> first_symbol_error(symbols@.subrange(0, i as int), scale_bits, 31) is None,
        decreases symbols@.len() - i,
    {
        let (start, freq) = symbols[i];
        let ghost e0 = encoder;
        let ghost op: RawOp = (start as nat, freq as nat, scale_bits as nat, prepared);
        proof {
            lemma_symbol_ops_push(symbols@, scale_bits, prepared, i as int);
            assert(symbols@.subrange(0, i as int + 1).drop_last() =~= symbols@.subrange(0, i as int));
        }
        if prepared {
            match Rans64EncSymbol::try_new(start, freq, scale_bits) {
                Ok(sym) => {
                    encoder.put(&sym);
                },
                Err(e) => {
                    proof {
                        lemma_first_error_stable(
                            symbols@,
                            scale_bits,
                            31,
                            i as int + 1,
                            symbols@.len() as int,
                        );
                        assert(symbols@.subrange(0, symbols@.len() as int) =~= symbols@);
                    }
                    return Err(e);
                },
            }
        } else {
            proof {
                let ops = symbol_ops(symbols@, scale_bits, false);
                assert(ops[i as int] == op);
                assert(valid_symbol(ops[i as int].0, ops[i as int].1, ops[i as int].2, 31));
            }
            encoder.put_raw(start, freq, scale_bits);
        }
        proof {
            lemma_r64_coded_push(
                e0,
                encoder,
                r64_lower(),
                Seq::empty(),
                symbol_ops(symbols@.subrange(0, i as int), scale_bits, prepared),
                op,
            );
        }
        i += 1;
    }
    proof {
        assert(symbols@.subrange(0, symbols@.len() as int) =~= symbols@);
    }
    encoder.flush();
    let units: Vec<u32> = encoder.into_sink().encoded();
    proof {
        let ops = symbol_ops(symbols@, scale_bits, prepared);
        assert(r64_encode_all(0x8000_0000, ops).0 + Seq::<u32>::empty() =~= r64_encode_all(
            0x8000_0000,
            ops,
        ).0);
    }
    Ok(units)
}

/// The largest scale of a variant code (see `max_scale_of`).
pub fn max_scale(variant: u32) -> (m: u32)
    ensures
        m == max_scale_of(variant),
{
    if variant == 1 {
        30
    } else {
        31
    }
}

/// Whether every symbol is valid at `scale_bits` with largest scale
/// `max_scale_bits`.
pub fn symbols_valid(symbols: &[(Freq, Freq)], scale_bits: Freq, max_scale_bits: u32) -> (b: bool)
    requires
        max_scale_bits <= 31,
    ensures
        b == all_valid(symbol_ops(symbols@, scale_bits, false), max_scale_bits as nat),
{
    let ghost ops = symbol_ops(symbols@, scale_bits, false);
    let mut i: usize = 0;
    while i < symbols.len()
        invariant
            max_scale_bits <= 31,
            ops == symbol_ops(symbols@, scale_bits, false),
            i <= symbols@.len(),
            forall|j: int| 0 <= j < i ==> valid_symbol(#[trigger] ops[j].0, ops[j].1, ops[j].2, max_scale_bits as nat),
        decreases symbols@.len() - i,
    {
        let (start, freq) = symbols[i];
        if !symbol_is_valid(start, freq, scale_bits, max_scale_bits) {
            proof {
                assert(ops[i as int] == (start as nat, freq as nat, scale_bits as nat, false));
                assert(!valid_symbol(ops[i as int].0, ops[i as int].1, ops[i as int].2, max_scale_bits as nat));
            }
            return false;
        }
        i += 1;
    }
    true
}

impl RawCase {
    /// Serialise to the raw oracle casefile format (see `raw_case_wire`).
    pub fn to_binary(&self) -> (b: Vec<u8>)
        ensures
            b@ == raw_case_wire(*self),
    {
        let mut buf: Vec<u8> = Vec::new();
        push_u32(&mut buf, self.variant);
        push_u32(&mut buf, self.mode);
        push_u32(&mut buf, self.scale_bits);
        push_u32(&mut buf, self.symbols.len() as u32);
        push_pairs(&mut buf, self.symbols.as_slice());
        proof {
            assert(buf@ =~= raw_case_wire(*self));
        }
        buf
    }

    /// Per-field hashes of the case's canonical little-endian bytes.
    pub fn raw_input_hashes(&self) -> (h: RawInputHashes)
        ensures
            h.variant_sha256@ == sha_hex(u32_le(self.variant)),
            h.mode_sha256@ == sha_hex(u32_le(self.mode)),
            h.scale_bits_sha256@ == sha_hex(u32_le(self.scale_bits)),
            h.symbols_sha256@ == sha_hex(pairs_le(self.symbols@)),
            h.casefile_sha256@ == sha_hex(raw_case_wire(*self)),
    {
        let mut variant_le: Vec<u8> = Vec::new();
        push_u32(&mut variant_le, self.variant);
        let mut mode_le: Vec<u8> = Vec::new();
        push_u32(&mut mode_le, self.mode);
        let mut scale_bits_le: Vec<u8> = Vec::new();
        push_u32(&mut scale_bits_le, self.scale_bits);
        let symbols_le: Vec<u8> = pairs_bytes(self.symbols.as_slice());
        let casefile_le: Vec<u8> = self.to_binary();
        proof {
            assert(variant_le@ =~= u32_le(self.variant));
            assert(mode_le@ =~= u32_le(self.mode));
            assert(scale_bits_le@ =~= u32_le(self.scale_bits));
        }
        RawInputHashes {
            variant_sha256: sha256(variant_le.as_slice()),
            mode_sha256: sha256(mode_le.as_slice()),
            scale_bits_sha256: sha256(scale_bits_le.as_slice()),
            symbols_sha256: sha256(symbols_le.as_slice()),
            casefile_sha256: sha256(casefile_le.as_slice()),
        }
    }

    /// Whether the native encoder can take the case (see `raw_encodable`):
    /// the raw path needs valid symbols.
    pub fn is_encodable(&self) -> (b: bool)
        ensures
            b == raw_encodable(*self),
    {
        if self.mode == 0 && (self.variant == 0 || self.variant == 1) {
            symbols_valid(self.symbols.as_slice(), self.scale_bits, max_scale(self.variant))
        } else {
            true
        }
    }

    /// Encode with the native raw encoder (see `raw_encode_spec`): the
    /// variant's message, units as little-endian bytes.
    pub fn rust_encode(&self) -> (r: Result<Vec<u8>, RawRansError>)
        requires
            raw_encodable(*self),
        ensures
            match raw_encode_spec(*self) {
                Ok(b) => r is Ok && r->Ok_0@ == b,
                Err(e) => r == Err::<Vec<u8>, RawRansError>(e),
            },
    {
        if self.variant != 0 && self.variant != 1 {
            return Err(RawRansError::InvalidParameters);
        }
        let prepared: bool = if self.mode == 0 {
            false
        } else if self.mode == 1 {
            true
        } else {
            return Err(RawRansError::InvalidParameters);
        };
        if self.variant == 1 {
            code_symbols_byte(self.symbols.as_slice(), self.scale_bits, prepared)
        } else {
            code_symbols_64(self.symbols.as_slice(), self.scale_bits, prepared)
        }
    }
}

} // verus!

verus! {

/// The raw encoder differential court (`MSRTC.RAW.ENCODER.DIFFERENTIAL`):
/// each case is coded natively and by the oracle's raw encoder, and the
/// two outputs are compared byte for byte.
pub struct RawEncoderDifferentialCourt;

/// The output of a native encode (empty on an error).
pub open spec fn output_of(r: Result<Seq<u8>, RawRansError>) -> Seq<u8> {
    match r {
        Ok(b) => b,
        Err(_) => Seq::empty(),
    }
}

/// The status of a native raw encode: `ok`, or `native_error: ` and the
/// error's debug text.
pub open spec fn raw_native_status(r: Result<Seq<u8>, RawRansError>) -> Seq<char> {
    match r {
        Ok(_) => "ok"@,
        Err(e) => "native_error: "@ + raw_error_text(e),
    }
}

/// The bitstream of an oracle reply (empty on an error).
pub open spec fn response_output(o: Result<OracleResponse, String>) -> Seq<u8> {
    match o {
        Ok(resp) => resp.raw_output@,
        Err(_) => Seq::empty(),
    }
}

/// The classification of a raw encoder case: none for a match; else the
/// oracle error's classification, a native bug when only the native side
/// failed, and undetermined otherwise.
pub open spec fn raw_classification(
    exact: bool,
    oracle: Result<OracleResponse, String>,
    native: Result<Seq<u8>, RawRansError>,
) -> ResidualClassification {
    if exact {
        ResidualClassification::Unclassified
    } else {
        match oracle {
            Err(e) => classify_error_spec(e@),
            Ok(_) => if native is Err {
                ResidualClassification::NativeBug
            } else {
                ResidualClassification::Unclassified
            },
        }
    }
}

impl RawEncoderDifferentialCourt {
    /// The court identifier.
    pub fn id(&self) -> (s: &'static str)
        ensures
            s@ == "MSRTC.RAW.ENCODER.DIFFERENTIAL"@,
    {
        "MSRTC.RAW.ENCODER.DIFFERENTIAL"
    }

    /// The record of one case, given the oracle's reply to its casefile:
    /// the case matches when both sides succeed with the same bytes.
    pub fn judge(
        &self,
        case: &RawCase,
        oracle: &Result<OracleResponse, String>,
        rust_commit: &str,
        environment_sha256: &str,
    ) -> (r: DifferentialResult)
        requires
            raw_encodable(*case),
        ensures
            ({
                let native = raw_encode_spec(*case);
                let n_out = output_of(native);
                let o_out = response_output(*oracle);
                let exact = native is Ok && oracle is Ok && n_out == o_out;
                &&& is_record(
                    r,
                    "MSRTC.RAW.ENCODER.DIFFERENTIAL"@,
                    "sha256:"@ + sha_hex(raw_case_wire(*case)),
                    case.seed,
                    case.variant,
                    compare_spec(n_out, o_out),
                    raw_classification(exact, *oracle, native),
                    if exact {
                        ResolutionState::Fixed
                    } else {
                        ResolutionState::Open
                    },
                    rust_commit@,
                    environment_sha256@,
                )
                &&& hashes_are(
                    r.input_hashes,
                    sha_hex(u32_le(case.variant)),
                    sha_hex(u32_le(case.mode)),
                    sha_hex(u32_le(case.scale_bits)),
                    sha_hex(pairs_le(case.symbols@)),
                    sha_hex(raw_case_wire(*case)),
                )
                &&& oracle_is(
                    r.oracle,
                    if oracle is Ok {
                        "ok"@
                    } else {
                        "oracle_error"@
                    },
                    sha_hex(o_out),
                    o_out.len() as int,
                )
                &&& native_is(r.native, raw_native_status(native), sha_hex(n_out), n_out.len() as int)
            }),
    {
        let case_binary: Vec<u8> = case.to_binary();
        let all_input_sha: String = sha256(case_binary.as_slice());
        let native: Result<Vec<u8>, RawRansError> = case.rust_encode();
        let empty: Vec<u8> = Vec::new();
        let native_ok: bool = native.is_ok();
        let (native_status, native_output): (String, Vec<u8>) = match native {
            Ok(out) => (String::from_str("ok"), out),
            Err(e) => (join("native_error: ", e.describe().as_str()), Vec::new()),
        };
        let (oracle_ok, oracle_output): (bool, &[u8]) = match oracle {
            Ok(resp) => (true, resp.raw_output.as_slice()),
            Err(_) => (false, empty.as_slice()),
        };
        let comparison: Comparison = compare_bytes(native_output.as_slice(), oracle_output);
        let exact: bool = native_ok && oracle_ok && comparison.exact;
        let classification: ResidualClassification = if exact {
            ResidualClassification::Unclassified
        } else {
            match oracle {
                Err(e) => classify_error(e.as_str()),
                Ok(_) => if !native_ok {
                    ResidualClassification::NativeBug
                } else {
                    ResidualClassification::Unclassified
                },
            }
        };
        let rh: RawInputHashes = case.raw_input_hashes();
        let input_hashes = InputHashes {
            pmf_lengths_sha256: rh.variant_sha256,
            pmf_offsets_sha256: rh.mode_sha256,
            pmf_table_sha256: rh.scale_bits_sha256,
            indices_sha256: rh.symbols_sha256,
            values_sha256: rh.casefile_sha256,
        };
        let oracle_result = OracleResult {
            status: if oracle_ok {
                String::from_str("ok")
            } else {
                String::from_str("oracle_error")
            },
            output_sha256: sha256(oracle_output),
            length: oracle_output.len() as u64,
        };
        let native_result = NativeResult {
            status: native_status,
            output_sha256: sha256(native_output.as_slice()),
            length: native_output.len() as u64,
        };
        court_record(
            self.id(),
            join("sha256:", all_input_sha.as_str()),
            case.seed,
            case.variant,
            input_hashes,
            oracle_result,
            native_result,
            comparison,
            classification,
            if exact {
                ResolutionState::Fixed
            } else {
                ResolutionState::Open
            },
            rust_commit,
            environment_sha256,
        )
    }
}

} // verus!
