//! Cases of the raw decoder differential court: a symbol sequence is coded
//! by one side and decoded by the other, step by step in the order of the
//! sequence, comparing each `get` slot and the final end-of-message state.
use crate::casefile::{
    sha256, sha_hex, Comparison, DifferentialResult, InputHashes, NativeResult, OracleResult,
    ResidualClassification, ResolutionState,
};
use crate::entropy::{
    byte_adv, byte_message, bytes_le_units, bytes_to_u32_units, r64_adv, r64_message, units_le_bytes,
};
use crate::error::RawRansError;
use crate::oracle::{classify_error, classify_error_spec};
use crate::raw_64::{r64_advance, r64_init, r64_lower, Rans64Decoder};
use crate::raw_byte::{all_valid, byte_advance, byte_init, byte_lower, valid_symbol, RansByteDecoder};
use crate::raw_cases::{
    code_symbols_byte, code_symbols_64, max_scale, max_scale_of, symbol_ops, symbols_valid,
};
use crate::source::SliceSource;
use crate::stream::units_to_le_bytes;
use crate::text::join;
use crate::verdict::{court_record, hashes_are, is_record, native_is, no_comparison, oracle_is};
use crate::wire::{pairs_bytes, pairs_le, push_bytes, push_pairs, push_u32, u32_le};
use crate::Freq;
use vstd::arithmetic::power2::*;
use vstd::prelude::*;
use vstd::string::*;

verus! {

/// A single decoder differential test case.
#[derive(Debug, Clone)]
pub struct DecoderCase {
    /// Case seed.
    pub seed: u64,
    /// 0 = Rans64, 1 = RansByte.
    pub variant: u32,
    /// Scale bits shared by all symbols.
    pub scale_bits: Freq,
    /// Sequence of `(start, freq)` tuples to encode and decode.
    pub symbols: Vec<(Freq, Freq)>,
}

/// Per-field SHA-256 hashes (lower-case hex) of a decoder case.
#[derive(Debug, Clone)]
pub struct DecoderInputHashes {
    /// Hash of the variant word.
    pub variant_sha256: String,
    /// Hash of the scale-bits word.
    pub scale_bits_sha256: String,
    /// Hash of all `(start, freq)` words.
    pub symbols_sha256: String,
    /// Hash of the encoded bitstream.
    pub encoded_sha256: String,
    /// Hash of the whole decoder casefile.
    pub casefile_sha256: String,
}

/// Decode `syms` in order from state `x` at `pos`: each step reads the
/// slot, then advances past the symbol. `None` when an advance runs out of
/// data; else the slots read and the final state.
pub open spec fn raw_steps(
    adv: spec_fn(nat, nat, nat, nat, nat) -> Option<(nat, nat)>,
    x: nat,
    syms: Seq<(u32, u32)>,
    sb: nat,
    pos: nat,
) -> Option<(Seq<u32>, nat)>
    decreases syms.len(),
{
    if syms.len() == 0 {
        Some((Seq::empty(), x))
    } else {
        match adv(x, syms[0].0 as nat, syms[0].1 as nat, sb, pos) {
            None => None,
            Some((x2, p2)) => match raw_steps(adv, x2, syms.drop_first(), sb, p2) {
                None => None,
                Some((g, xf)) => Some((seq![(x % pow2(sb)) as u32] + g, xf)),
            },
        }
    }
}

/// Every step of `raw_steps` reads a slot at or above its symbol's start
/// (the decoder's precondition for an advance).
pub open spec fn raw_steps_safe(
    adv: spec_fn(nat, nat, nat, nat, nat) -> Option<(nat, nat)>,
    x: nat,
    syms: Seq<(u32, u32)>,
    sb: nat,
    pos: nat,
) -> bool
    decreases syms.len(),
{
    syms.len() == 0 || (x % pow2(sb) >= syms[0].0 && match adv(
        x,
        syms[0].0 as nat,
        syms[0].1 as nat,
        sb,
        pos,
    ) {
        None => true,
        Some((x2, p2)) => raw_steps_safe(adv, x2, syms.drop_first(), sb, p2),
    })
}

/// The decode outcome after initialisation: `advance_err` when an advance
/// fails, else the slots and whether the state is back at `lower`.
pub open spec fn steps_outcome(
    steps: Option<(Seq<u32>, nat)>,
    lower: nat,
    advance_err: Seq<char>,
) -> Result<(Seq<u32>, bool), Seq<char>> {
    match steps {
        None => Err(advance_err),
        Some((g, xf)) => Ok((g, xf == lower)),
    }
}

/// The native decode of a bitstream for a case.
pub open spec fn decoder_decode_spec(c: DecoderCase, bytes: Seq<u8>) -> Result<(Seq<u32>, bool), Seq<char>> {
    let sb = c.scale_bits as nat;
    if c.variant == 1 {
        match byte_init(bytes, 0) {
            None => Err("Rust decoder init failed"@),
            Some((x, p)) => steps_outcome(
                raw_steps(byte_adv(bytes), x, c.symbols@, sb, p),
                byte_lower(),
                "Rust decoder advance failed"@,
            ),
        }
    } else if c.variant == 0 {
        if bytes.len() % 4 != 0 {
            Err("bitstream length not multiple of 4 for Rans64"@)
        } else {
            let units = bytes_le_units(bytes);
            match r64_init(units, 0) {
                None => Err("Rust decoder init failed (Rans64)"@),
                Some((x, p)) => steps_outcome(
                    raw_steps(r64_adv(units), x, c.symbols@, sb, p),
                    r64_lower(),
                    "Rust decoder advance failed (Rans64)"@,
                ),
            }
        }
    } else {
        Err("invalid variant"@)
    }
}

/// The native decode of `bytes` never advances past a symbol whose start
/// lies above the slot read.
pub open spec fn decoder_decode_safe(c: DecoderCase, bytes: Seq<u8>) -> bool {
    let sb = c.scale_bits as nat;
    &&& c.variant == 1 ==> match byte_init(bytes, 0) {
        None => true,
        Some((x, p)) => raw_steps_safe(byte_adv(bytes), x, c.symbols@, sb, p),
    }
    &&& (c.variant == 0 && bytes.len() % 4 == 0) ==> match r64_init(bytes_le_units(bytes), 0) {
        None => true,
        Some((x, p)) => raw_steps_safe(r64_adv(bytes_le_units(bytes)), x, c.symbols@, sb, p),
    }
}

/// The case's symbols are valid for its variant (the raw coder's
/// precondition).
pub open spec fn decoder_symbols_valid(c: DecoderCase) -> bool {
    (c.variant == 0 || c.variant == 1) ==> all_valid(
        symbol_ops(c.symbols@, c.scale_bits, false),
        max_scale_of(c.variant),
    )
}

/// The native encoding of a decoder case (raw path).
pub open spec fn decoder_encode_spec(c: DecoderCase) -> Result<Seq<u8>, RawRansError> {
    if c.variant == 1 {
        Ok(byte_message(symbol_ops(c.symbols@, c.scale_bits, false)))
    } else if c.variant == 0 {
        Ok(r64_message(symbol_ops(c.symbols@, c.scale_bits, false)))
    } else {
        Err(RawRansError::InvalidParameters)
    }
}

/// The decoder oracle casefile: variant, scale bits, symbol count,
/// bitstream length, the bitstream, then the symbols.
pub open spec fn decoder_wire(c: DecoderCase, bitstream: Seq<u8>) -> Seq<u8> {
    u32_le(c.variant) + u32_le(c.scale_bits) + u32_le(c.symbols@.len() as u32) + u32_le(
        bitstream.len() as u32,
    ) + bitstream + pairs_le(c.symbols@)
}

/// The raw encoder oracle casefile of a decoder case (raw mode 0).
pub open spec fn encoder_wire(c: DecoderCase) -> Seq<u8> {
    u32_le(c.variant) + u32_le(0) + u32_le(c.scale_bits) + u32_le(c.symbols@.len() as u32) + pairs_le(
        c.symbols@,
    )
}

/// Valid symbols at an index.
proof fn lemma_symbol_at(c: DecoderCase, i: int)
    requires
        decoder_symbols_valid(c),
        c.variant == 0 || c.variant == 1,
        0 <= i < c.symbols@.len(),
    ensures
        valid_symbol(
            c.symbols@[i].0 as nat,
            c.symbols@[i].1 as nat,
            c.scale_bits as nat,
            max_scale_of(c.variant),
        ),
{
    let ops = symbol_ops(c.symbols@, c.scale_bits, false);
    assert(valid_symbol(ops[i].0, ops[i].1, ops[i].2, max_scale_of(c.variant)));
}

impl DecoderCase {
    /// Whether the case's symbols can be coded natively (see
    /// `decoder_symbols_valid`).
    pub fn symbols_are_valid(&self) -> (b: bool)
        ensures
            b == decoder_symbols_valid(*self),
    {
        if self.variant == 0 || self.variant == 1 {
            symbols_valid(self.symbols.as_slice(), self.scale_bits, max_scale(self.variant))
        } else {
            true
        }
    }

    /// Encode with the native raw encoder (raw `put_raw` path) to produce a
    /// bitstream (see `decoder_encode_spec`).
    pub fn rust_encode(&self) -> (r: Result<Vec<u8>, RawRansError>)
        requires
            decoder_symbols_valid(*self),
        ensures
            match decoder_encode_spec(*self) {
                Ok(b) => r is Ok && r->Ok_0@ == b,
                Err(e) => r == Err::<Vec<u8>, RawRansError>(e),
            },
    {
        if self.variant == 1 {
            code_symbols_byte(self.symbols.as_slice(), self.scale_bits, false)
        } else if self.variant == 0 {
            code_symbols_64(self.symbols.as_slice(), self.scale_bits, false)
        } else {
            Err(RawRansError::InvalidParameters)
        }
    }

    /// Decode `bitstream` with the native raw decoder, in the order of the
    /// case's symbols: the slots read and whether the end state was reached
    /// (see `decoder_decode_spec`).
    pub fn rust_decode(&self, bitstream: &[u8]) -> (r: Result<(Vec<u32>, bool), String>)
        requires
            decoder_symbols_valid(*self),
            decoder_decode_safe(*self, bitstream@),
        ensures
            match decoder_decode_spec(*self, bitstream@) {
                Ok((g, eof)) => r is Ok && r->Ok_0.0@ == g && r->Ok_0.1 == eof,
                Err(e) => r is Err && r->Err_0@ == e,
            },
    {
        if self.variant == 1 {
            self.rust_decode_byte(bitstream)
        } else if self.variant == 0 {
            self.rust_decode_64(bitstream)
        } else {
            Err(String::from_str("invalid variant"))
        }
    }

    fn rust_decode_byte(&self, bitstream: &[u8]) -> (r: Result<(Vec<u32>, bool), String>)
        requires
            self.variant == 1,
            decoder_symbols_valid(*self),
            decoder_decode_safe(*self, bitstream@),
        ensures
            match decoder_decode_spec(*self, bitstream@) {
                Ok((g, eof)) => r is Ok && r->Ok_0.0@ == g && r->Ok_0.1 == eof,
                Err(e) => r is Err && r->Err_0@ == e,
            },
    {
        let ghost data = bitstream@;
        let ghost sb: nat = self.scale_bits as nat;
        let ghost adv = byte_adv(data);
        let mut decoder: RansByteDecoder = RansByteDecoder::new(SliceSource::new(bitstream));
        if !decoder.init() {
            return Err(String::from_str("Rust decoder init failed"));
        }
        let ghost x0: nat = decoder.spec_state();
        let ghost p0: nat = decoder.pos();
        let syms: &[(u32, u32)] = self.symbols.as_slice();
        let mut get_values: Vec<u32> = Vec::new();
        let mut i: usize = 0;
        proof {
            assert(syms@.skip(0) =~= syms@);
        }
        while i < syms.len()
            invariant
                self.variant == 1,
                decoder_symbols_valid(*self),
                syms@ == self.symbols@,
                sb == self.scale_bits,
                adv == byte_adv(data),
                data == bitstream@,
                byte_init(data, 0) == Some((x0, p0)),
                decoder.data() == data,
                i <= syms@.len(),
                raw_steps_safe(adv, decoder.spec_state(), syms@.skip(i as int), sb, decoder.pos()),
                raw_steps(adv, x0, syms@, sb, p0) == match raw_steps(
                    adv,
                    decoder.spec_state(),
                    syms@.skip(i as int),
                    sb,
                    decoder.pos(),
                ) {
                    None => None,
                    Some((g, xf)) => Some((get_values@ + g, xf)),
                },
            decreases syms@.len() - i,
        {
            let (start, freq) = syms[i];
            proof {
                lemma_symbol_at(*self, i as int);
                assert(syms@.skip(i as int)[0] == syms@[i as int]);
                assert(syms@.skip(i as int).drop_first() =~= syms@.skip(i as int + 1));
            }
            let ghost x: nat = decoder.spec_state();
            let ghost p: nat = decoder.pos();
            let cum_freq: u32 = decoder.get(self.scale_bits);
            get_values.push(cum_freq);
            proof {
                assert(adv(x, start as nat, freq as nat, sb, p) == byte_advance(x, start as nat, freq as nat, sb, data, p));
            }
            if !decoder.advance(start, freq, self.scale_bits) {
                proof {
                    assert(raw_steps(adv, x, syms@.skip(i as int), sb, p) is None);
                }
                return Err(String::from_str("Rust decoder advance failed"));
            }
            proof {
                let rest = raw_steps(adv, decoder.spec_state(), syms@.skip(i as int + 1), sb, decoder.pos());
                match rest {
                    None => {},
                    Some((g, xf)) => {
                        assert(get_values@ + g =~= get_values@.drop_last() + (seq![(x % pow2(sb)) as u32] + g));
                    },
                }
            }
            i += 1;
        }
        proof {
            assert(syms@.skip(syms@.len() as int) =~= Seq::<(u32, u32)>::empty());
            assert(get_values@ + Seq::<u32>::empty() =~= get_values@);
        }
        let eof: bool = decoder.check_eof();
        Ok((get_values, eof))
    }

    fn rust_decode_64(&self, bitstream: &[u8]) -> (r: Result<(Vec<u32>, bool), String>)
        requires
            self.variant == 0,
            decoder_symbols_valid(*self),
            decoder_decode_safe(*self, bitstream@),
        ensures
            match decoder_decode_spec(*self, bitstream@) {
                Ok((g, eof)) => r is Ok && r->Ok_0.0@ == g && r->Ok_0.1 == eof,
                Err(e) => r is Err && r->Err_0@ == e,
            },
    {
        if bitstream.len() % 4 != 0 {
            return Err(String::from_str("bitstream length not multiple of 4 for Rans64"));
        }
        let units: Vec<u32> = bytes_to_u32_units(bitstream);
        let ghost data = units@;
        let ghost sb: nat = self.scale_bits as nat;
        let ghost adv = r64_adv(data);
        let mut decoder: Rans64Decoder = Rans64Decoder::new(SliceSource::new(units.as_slice()));
        if !decoder.init() {
            return Err(String::from_str("Rust decoder init failed (Rans64)"));
        }
        let ghost x0: nat = decoder.spec_state();
        let ghost p0: nat = decoder.pos();
        let syms: &[(u32, u32)] = self.symbols.as_slice();
        let mut get_values: Vec<u32> = Vec::new();
        let mut i: usize = 0;
        proof {
            assert(syms@.skip(0) =~= syms@);
        }
        while i < syms.len()
            invariant
                self.variant == 0,
                decoder_symbols_valid(*self),
                syms@ == self.symbols@,
                sb == self.scale_bits,
                adv == r64_adv(data),
                bitstream@.len() % 4 == 0,
                data == bytes_le_units(bitstream@),
                r64_init(data, 0) == Some((x0, p0)),
                decoder.data() == data,
                i <= syms@.len(),
                raw_steps_safe(adv, decoder.spec_state(), syms@.skip(i as int), sb, decoder.pos()),
                raw_steps(adv, x0, syms@, sb, p0) == match raw_steps(
                    adv,
                    decoder.spec_state(),
                    syms@.skip(i as int),
                    sb,
                    decoder.pos(),
                ) {
                    None => None,
                    Some((g, xf)) => Some((get_values@ + g, xf)),
                },
            decreases syms@.len() - i,
        {
            let (start, freq) = syms[i];
            proof {
                lemma_symbol_at(*self, i as int);
                assert(syms@.skip(i as int)[0] == syms@[i as int]);
                assert(syms@.skip(i as int).drop_first() =~= syms@.skip(i as int + 1));
            }
            let ghost x: nat = decoder.spec_state();
            let ghost p: nat = decoder.pos();
            let cum_freq: u32 = decoder.get(self.scale_bits);
            get_values.push(cum_freq);
            proof {
                assert(adv(x, start as nat, freq as nat, sb, p) == r64_advance(x, start as nat, freq as nat, sb, data, p));
            }
            if !decoder.advance(start, freq, self.scale_bits) {
                proof {
                    assert(raw_steps(adv, x, syms@.skip(i as int), sb, p) is None);
                }
                return Err(String::from_str("Rust decoder advance failed (Rans64)"));
            }
            proof {
                let rest = raw_steps(adv, decoder.spec_state(), syms@.skip(i as int + 1), sb, decoder.pos());
                match rest {
                    None => {},
                    Some((g, xf)) => {
                        assert(get_values@ + g =~= get_values@.drop_last() + (seq![(x % pow2(sb)) as u32] + g));
                    },
                }
            }
            i += 1;
        }
        proof {
            assert(syms@.skip(syms@.len() as int) =~= Seq::<(u32, u32)>::empty());
            assert(get_values@ + Seq::<u32>::empty() =~= get_values@);
        }
        let eof: bool = decoder.check_eof();
        Ok((get_values, eof))
    }

    /// Whether the native decode of `bitstream` stays within the decoder's
    /// preconditions (see `decoder_decode_safe`).
    pub fn decode_is_safe(&self, bitstream: &[u8]) -> (b: bool)
        requires
            decoder_symbols_valid(*self),
        ensures
            b == decoder_decode_safe(*self, bitstream@),
    {
        if self.variant == 1 {
            let ghost data = bitstream@;
            let ghost sb: nat = self.scale_bits as nat;
            let ghost adv = byte_adv(data);
            let mut decoder: RansByteDecoder = RansByteDecoder::new(SliceSource::new(bitstream));
            if !decoder.init() {
                return true;
            }
            let ghost x0: nat = decoder.spec_state();
            let ghost p0: nat = decoder.pos();
            let syms: &[(u32, u32)] = self.symbols.as_slice();
            let mut i: usize = 0;
            proof {
                assert(syms@.skip(0) =~= syms@);
            }
            while i < syms.len()
                invariant
                    self.variant == 1,
                    decoder_symbols_valid(*self),
                    syms@ == self.symbols@,
                    sb == self.scale_bits,
                    adv == byte_adv(data),
                    data == bitstream@,
                    byte_init(data, 0) == Some((x0, p0)),
                    decoder.data() == data,
                    i <= syms@.len(),
                    raw_steps_safe(adv, x0, syms@, sb, p0) == raw_steps_safe(
                        adv,
                        decoder.spec_state(),
                        syms@.skip(i as int),
                        sb,
                        decoder.pos(),
                    ),
                decreases syms@.len() - i,
            {
                let (start, freq) = syms[i];
                proof {
                    lemma_symbol_at(*self, i as int);
                    assert(syms@.skip(i as int)[0] == syms@[i as int]);
                    assert(syms@.skip(i as int).drop_first() =~= syms@.skip(i as int + 1));
                }
                let ghost x: nat = decoder.spec_state();
                let ghost p: nat = decoder.pos();
                proof {
                    assert(adv(x, start as nat, freq as nat, sb, p) == byte_advance(x, start as nat, freq as nat, sb, data, p));
                }
                let slot: u32 = decoder.get(self.scale_bits);
                if slot < start {
                    return false;
                }
                if !decoder.advance(start, freq, self.scale_bits) {
                    return true;
                }
                i += 1;
            }
            true
        } else if self.variant == 0 && bitstream.len() % 4 == 0 {
            let units: Vec<u32> = bytes_to_u32_units(bitstream);
            let ghost data = units@;
            let ghost sb: nat = self.scale_bits as nat;
            let ghost adv = r64_adv(data);
            let mut decoder: Rans64Decoder = Rans64Decoder::new(SliceSource::new(units.as_slice()));
            if !decoder.init() {
                return true;
            }
            let ghost x0: nat = decoder.spec_state();
            let ghost p0: nat = decoder.pos();
            let syms: &[(u32, u32)] = self.symbols.as_slice();
            let mut i: usize = 0;
            proof {
                assert(syms@.skip(0) =~= syms@);
            }
            while i < syms.len()
                invariant
                    self.variant == 0,
                    decoder_symbols_valid(*self),
                    syms@ == self.symbols@,
                    sb == self.scale_bits,
                    adv == r64_adv(data),
                    bitstream@.len() % 4 == 0,
                    data == bytes_le_units(bitstream@),
                    r64_init(data, 0) == Some((x0, p0)),
                    decoder.data() == data,
                    i <= syms@.len(),
                    raw_steps_safe(adv, x0, syms@, sb, p0) == raw_steps_safe(
                        adv,
                        decoder.spec_state(),
                        syms@.skip(i as int),
                        sb,
                        decoder.pos(),
                    ),
                decreases syms@.len() - i,
            {
                let (start, freq) = syms[i];
                proof {
                    lemma_symbol_at(*self, i as int);
                    assert(syms@.skip(i as int)[0] == syms@[i as int]);
                    assert(syms@.skip(i as int).drop_first() =~= syms@.skip(i as int + 1));
                }
                let ghost x: nat = decoder.spec_state();
                let ghost p: nat = decoder.pos();
                proof {
                    assert(adv(x, start as nat, freq as nat, sb, p) == r64_advance(x, start as nat, freq as nat, sb, data, p));
                }
                let slot: u32 = decoder.get(self.scale_bits);
                if slot < start {
                    return false;
                }
                if !decoder.advance(start, freq, self.scale_bits) {
                    return true;
                }
                i += 1;
            }
            true
        } else {
            true
        }
    }

    /// Build the decoder oracle casefile (see `decoder_wire`).
    pub fn to_decoder_oracle_binary(&self, bitstream: &[u8]) -> (b: Vec<u8>)
        ensures
            b@ == decoder_wire(*self, bitstream@),
    {
        let mut buf: Vec<u8> = Vec::new();
        push_u32(&mut buf, self.variant);
        push_u32(&mut buf, self.scale_bits);
        push_u32(&mut buf, self.symbols.len() as u32);
        push_u32(&mut buf, bitstream.len() as u32);
        push_bytes(&mut buf, bitstream);
        push_pairs(&mut buf, self.symbols.as_slice());
        proof {
            assert(buf@ =~= decoder_wire(*self, bitstream@));
        }
        buf
    }

    /// Build the raw encoder oracle casefile, raw mode (see `encoder_wire`).
    pub fn to_encoder_oracle_binary(&self) -> (b: Vec<u8>)
        ensures
            b@ == encoder_wire(*self),
    {
        let mut buf: Vec<u8> = Vec::new();
        push_u32(&mut buf, self.variant);
        push_u32(&mut buf, 0);
        push_u32(&mut buf, self.scale_bits);
        push_u32(&mut buf, self.symbols.len() as u32);
        push_pairs(&mut buf, self.symbols.as_slice());
        proof {
            assert(buf@ =~= encoder_wire(*self));
        }
        buf
    }

    /// Per-field hashes of the case and the bitstream.
    pub fn compute_input_hashes(&self, bitstream: &[u8]) -> (h: DecoderInputHashes)
        ensures
            h.variant_sha256@ == sha_hex(u32_le(self.variant)),
            h.scale_bits_sha256@ == sha_hex(u32_le(self.scale_bits)),
            h.symbols_sha256@ == sha_hex(pairs_le(self.symbols@)),
            h.encoded_sha256@ == sha_hex(bitstream@),
            h.casefile_sha256@ == sha_hex(decoder_wire(*self, bitstream@)),
    {
        let mut variant_le: Vec<u8> = Vec::new();
        push_u32(&mut variant_le, self.variant);
        let mut scale_bits_le: Vec<u8> = Vec::new();
        push_u32(&mut scale_bits_le, self.scale_bits);
        let symbols_le: Vec<u8> = pairs_bytes(self.symbols.as_slice());
        let casefile_le: Vec<u8> = self.to_decoder_oracle_binary(bitstream);
        proof {
            assert(variant_le@ =~= u32_le(self.variant));
            assert(scale_bits_le@ =~= u32_le(self.scale_bits));
        }
        DecoderInputHashes {
            variant_sha256: sha256(variant_le.as_slice()),
            scale_bits_sha256: sha256(scale_bits_le.as_slice()),
            symbols_sha256: sha256(symbols_le.as_slice()),
            encoded_sha256: sha256(bitstream),
            casefile_sha256: sha256(casefile_le.as_slice()),
        }
    }
}

} // verus!

verus! {

/// The hand-picked decoder cases: `(seed, variant, scale_bits, symbols)`.
pub open spec fn fixed_decoder_case(j: int) -> (u64, u32, u32, Seq<(u32, u32)>) {
    if j == 0 {
        (0, 1, 8, seq![(0u32, 128u32)])
    } else if j == 1 {
        (1, 1, 8, seq![(0u32, 128u32), (64u32, 64u32), (128u32, 32u32)])
    } else if j == 2 {
        (2, 1, 8, seq![(0u32, 1u32)])
    } else if j == 3 {
        (3, 1, 10, seq![(128u32, 512u32), (0u32, 256u32), (512u32, 256u32)])
    } else if j == 4 {
        (4, 0, 16, seq![(0u32, 32768u32)])
    } else if j == 5 {
        (5, 0, 16, seq![(0u32, 32768u32), (16384u32, 16384u32)])
    } else if j == 6 {
        (6, 0, 16, seq![(0u32, 1u32)])
    } else {
        (7, 0, 20, seq![(0u32, 524288u32), (524288u32, 262144u32), (786432u32, 131072u32)])
    }
}

/// Generate the deterministic decoder cases (see `fixed_decoder_case`);
/// the symbols of every case are valid for its variant.
pub fn generate_decoder_cases() -> (cases: Vec<DecoderCase>)
    ensures
        cases@.len() == 8,
        forall|j: int|
            #![trigger cases@[j]]
            0 <= j < 8 ==> {
                let f = fixed_decoder_case(j);
                &&& cases@[j].seed == f.0
                &&& cases@[j].variant == f.1
                &&& cases@[j].scale_bits == f.2
                &&& cases@[j].symbols@ == f.3
                &&& decoder_symbols_valid(cases@[j])
            },
{
    let mut cases: Vec<DecoderCase> = Vec::new();
    cases.push(DecoderCase { seed: 0, variant: 1, scale_bits: 8, symbols: vec![(0, 128)] });
    cases.push(DecoderCase { seed: 1, variant: 1, scale_bits: 8, symbols: vec![(0, 128), (64, 64), (128, 32)] });
    cases.push(DecoderCase { seed: 2, variant: 1, scale_bits: 8, symbols: vec![(0, 1)] });
    cases.push(
        DecoderCase { seed: 3, variant: 1, scale_bits: 10, symbols: vec![(128, 512), (0, 256), (512, 256)] },
    );
    cases.push(DecoderCase { seed: 4, variant: 0, scale_bits: 16, symbols: vec![(0, 32768)] });
    cases.push(DecoderCase { seed: 5, variant: 0, scale_bits: 16, symbols: vec![(0, 32768), (16384, 16384)] });
    cases.push(DecoderCase { seed: 6, variant: 0, scale_bits: 16, symbols: vec![(0, 1)] });
    cases.push(
        DecoderCase {
            seed: 7,
            variant: 0,
            scale_bits: 20,
            symbols: vec![(0, 524288), (524288, 262144), (786432, 131072)],
        },
    );
    proof {
        lemma2_to64();
        assert forall|j: int| 0 <= j < 8 implies {
            let f = fixed_decoder_case(j);
            &&& cases@[j].seed == f.0
            &&& cases@[j].variant == f.1
            &&& cases@[j].scale_bits == f.2
            &&& cases@[j].symbols@ == f.3
            &&& decoder_symbols_valid(#[trigger] cases@[j])
        } by {
            let f = fixed_decoder_case(j);
            assert(cases@[j].symbols@ =~= f.3);
            let ops = symbol_ops(cases@[j].symbols@, cases@[j].scale_bits, false);
            assert forall|i: int| 0 <= i < ops.len() implies valid_symbol(
                #[trigger] ops[i].0,
                ops[i].1,
                ops[i].2,
                max_scale_of(cases@[j].variant),
            ) by {
                assert(cases@[j].symbols@[i] == f.3[i]);
            }
        }
    }
    cases
}

/// The first index below `n`, from `i`, where two slot sequences differ.
pub open spec fn first_get_diff(a: Seq<u32>, b: Seq<u32>, i: int, n: int) -> Option<int>
    decreases n - i,
{
    if i >= n {
        None
    } else if a[i] != b[i] {
        Some(i)
    } else {
        first_get_diff(a, b, i + 1, n)
    }
}

/// The number of differing slots among the first `n`.
pub open spec fn get_diff_count(a: Seq<u32>, b: Seq<u32>, n: int) -> nat
    decreases n,
{
    if n <= 0 {
        0
    } else {
        get_diff_count(a, b, n - 1) + if a[n - 1] != b[n - 1] {
            1nat
        } else {
            0nat
        }
    }
}

/// The comparison of two decodes (slots and end states): exact when both
/// agree; else the byte offset (four per slot) of the first differing
/// slot, if any, and the differing slots plus the length difference, or 1
/// when only the end states differ.
pub open spec fn compare_gets_spec(n: Seq<u32>, ne: bool, o: Seq<u32>, oe: bool) -> Comparison {
    if n == o && ne == oe {
        Comparison { exact: true, first_differing_offset: None, differing_bytes: None }
    } else {
        let m = if n.len() <= o.len() {
            n.len()
        } else {
            o.len()
        };
        let len_diff = if n.len() <= o.len() {
            o.len() - n.len()
        } else {
            n.len() - o.len()
        };
        Comparison {
            exact: false,
            first_differing_offset: match first_get_diff(n, o, 0, m as int) {
                Some(i) => Some((4 * i) as u64),
                None => None,
            },
            differing_bytes: Some(
                if n != o {
                    (get_diff_count(n, o, m as int) + len_diff) as u64
                } else {
                    1u64
                },
            ),
        }
    }
}

/// With no difference from `i` before `k` and one at `k` (or `k == n`),
/// the first difference from `i` is at `k` (none when `k == n`).
proof fn lemma_first_get_diff_at(a: Seq<u32>, b: Seq<u32>, i: int, k: int, n: int)
    requires
        0 <= i <= k <= n,
        forall|j: int| i <= j < k ==> a[j] == b[j],
        k == n || a[k] != b[k],
    ensures
        first_get_diff(a, b, i, n) == if k == n {
            None::<int>
        } else {
            Some(k)
        },
    decreases k - i,
{
    if i < k {
        lemma_first_get_diff_at(a, b, i + 1, k, n);
    }
}

/// Compare two decodes (see `compare_gets_spec`).
pub fn compare_gets(native: &[u32], native_eof: bool, oracle: &[u32], oracle_eof: bool) -> (c: Comparison)
    requires
        4 * native@.len() <= u64::MAX,
        4 * oracle@.len() <= u64::MAX,
    ensures
        c == compare_gets_spec(native@, native_eof, oracle@, oracle_eof),
{
    let min_len: usize = if native.len() <= oracle.len() {
        native.len()
    } else {
        oracle.len()
    };
    let mut first: usize = min_len;
    let mut found: bool = false;
    let mut count: u64 = 0;
    let mut i: usize = 0;
    while i < min_len
        invariant
            min_len <= native@.len(),
            min_len <= oracle@.len(),
            min_len == native@.len() || min_len == oracle@.len(),
            i <= min_len,
            count == get_diff_count(native@, oracle@, i as int),
            count <= i,
            !found ==> first == min_len && forall|j: int| 0 <= j < i ==> native@[j] == oracle@[j],
            found ==> first < i && count > 0 && forall|j: int| 0 <= j < first ==> native@[j]
                == oracle@[j],
            found ==> native@[first as int] != oracle@[first as int],
        decreases min_len - i,
    {
        if native[i] != oracle[i] {
            count += 1;
            if !found {
                found = true;
                first = i;
            }
        }
        i += 1;
    }
    proof {
        lemma_first_get_diff_at(native@, oracle@, 0, first as int, min_len as int);
    }
    let same: bool = native.len() == oracle.len() && !found;
    proof {
        if same {
            assert(native@ =~= oracle@);
        }
        if native@ == oracle@ {
            assert(native@.len() == oracle@.len());
            assert(!found);
        }
    }
    if same && native_eof == oracle_eof {
        return Comparison { exact: true, first_differing_offset: None, differing_bytes: None };
    }
    let len_diff: usize = if native.len() <= oracle.len() {
        oracle.len() - native.len()
    } else {
        native.len() - oracle.len()
    };
    Comparison {
        exact: false,
        first_differing_offset: if found {
            Some(first as u64 * 4)
        } else {
            None
        },
        differing_bytes: Some(
            if !same {
                count + len_diff as u64
            } else {
                1
            },
        ),
    }
}

/// A decode as bytes: the slots as little-endian words, then the end state
/// as a word (1 or 0).
pub open spec fn decode_output(gets: Seq<u32>, eof: bool) -> Seq<u8> {
    units_le_bytes(gets) + u32_le(
        if eof {
            1
        } else {
            0
        },
    )
}

fn decode_output_bytes(gets: &[u32], eof: bool) -> (b: Vec<u8>)
    ensures
        b@ == decode_output(gets@, eof),
{
    let mut b: Vec<u8> = units_to_le_bytes(gets);
    push_u32(
        &mut b,
        if eof {
            1
        } else {
            0
        },
    );
    b
}

/// The raw decoder differential court (`MSRTC.RAW.DECODER.DIFFERENTIAL`):
/// each case is coded by one side and decoded by both, in both directions
/// (`rust_enc_cpp_dec`, `cpp_enc_rust_dec`).
pub struct RawDecoderDifferentialCourt;

impl RawDecoderDifferentialCourt {
    /// The court identifier.
    pub fn id(&self) -> (s: &'static str)
        ensures
            s@ == "MSRTC.RAW.DECODER.DIFFERENTIAL"@,
    {
        "MSRTC.RAW.DECODER.DIFFERENTIAL"
    }

    /// The record of one direction of a case: `bitstream` was decoded
    /// natively (`native_gets`, `native_eof`) and by the oracle's decoder
    /// (`oracle_gets`, `oracle_eof`); the case matches when both agree.
    pub fn judge_decode(
        &self,
        case: &DecoderCase,
        direction: &str,
        bitstream: &[u8],
        native_gets: &[u32],
        native_eof: bool,
        oracle_gets: &[u32],
        oracle_eof: bool,
        rust_commit: &str,
        environment_sha256: &str,
    ) -> (r: DifferentialResult)
        requires
            4 * native_gets@.len() <= u64::MAX,
            4 * oracle_gets@.len() <= u64::MAX,
        ensures
            ({
                let comparison = compare_gets_spec(native_gets@, native_eof, oracle_gets@, oracle_eof);
                let n_out = decode_output(native_gets@, native_eof);
                let o_out = decode_output(oracle_gets@, oracle_eof);
                &&& is_record(
                    r,
                    "MSRTC.RAW.DECODER.DIFFERENTIAL"@,
                    direction@ + ":sha256:"@ + sha_hex(decoder_wire(*case, bitstream@)),
                    case.seed,
                    case.variant,
                    comparison,
                    ResidualClassification::Unclassified,
                    if comparison.exact {
                        ResolutionState::Fixed
                    } else {
                        ResolutionState::Open
                    },
                    rust_commit@,
                    environment_sha256@,
                )
                &&& hashes_are(
                    r.input_hashes,
                    sha_hex(u32_le(case.variant)),
                    sha_hex(u32_le(case.scale_bits)),
                    sha_hex(pairs_le(case.symbols@)),
                    sha_hex(bitstream@),
                    sha_hex(decoder_wire(*case, bitstream@)),
                )
                &&& oracle_is(r.oracle, "ok"@, sha_hex(o_out), o_out.len() as int)
                &&& native_is(r.native, "ok"@, sha_hex(n_out), n_out.len() as int)
            }),
    {
        let decoder_binary: Vec<u8> = case.to_decoder_oracle_binary(bitstream);
        let all_input_sha: String = sha256(decoder_binary.as_slice());
        let comparison: Comparison = compare_gets(native_gets, native_eof, oracle_gets, oracle_eof);
        let native_output: Vec<u8> = decode_output_bytes(native_gets, native_eof);
        let oracle_output: Vec<u8> = decode_output_bytes(oracle_gets, oracle_eof);
        let rh: DecoderInputHashes = case.compute_input_hashes(bitstream);
        let mut case_id: String = String::from_str(direction);
        case_id.append(":sha256:");
        case_id.append(all_input_sha.as_str());
        court_record(
            self.id(),
            case_id,
            case.seed,
            case.variant,
            InputHashes {
                pmf_lengths_sha256: rh.variant_sha256,
                pmf_offsets_sha256: rh.scale_bits_sha256,
                pmf_table_sha256: rh.symbols_sha256,
                indices_sha256: rh.encoded_sha256,
                values_sha256: rh.casefile_sha256,
            },
            OracleResult {
                status: String::from_str("ok"),
                output_sha256: sha256(oracle_output.as_slice()),
                length: oracle_output.len() as u64,
            },
            NativeResult {
                status: String::from_str("ok"),
                output_sha256: sha256(native_output.as_slice()),
                length: native_output.len() as u64,
            },
            comparison,
            ResidualClassification::Unclassified,
            if comparison.exact {
                ResolutionState::Fixed
            } else {
                ResolutionState::Open
            },
            rust_commit,
            environment_sha256,
        )
    }

    /// The record of a direction that could not run (`error` says which
    /// step failed): no outputs, the error as the native status, and the
    /// error's classification.
    pub fn infrastructure_failure(
        &self,
        case: &DecoderCase,
        direction: &str,
        error: &str,
        rust_commit: &str,
        environment_sha256: &str,
    ) -> (r: DifferentialResult)
        ensures
            is_record(
                r,
                "MSRTC.RAW.DECODER.DIFFERENTIAL"@,
                direction@ + "_"@ + sha_hex(decoder_wire(*case, Seq::empty())),
                case.seed,
                case.variant,
                no_comparison(),
                classify_error_spec(error@),
                ResolutionState::Open,
                rust_commit@,
                environment_sha256@,
            ),
            hashes_are(
                r.input_hashes,
                sha_hex(u32_le(case.variant)),
                sha_hex(u32_le(case.scale_bits)),
                sha_hex(pairs_le(case.symbols@)),
                Seq::empty(),
                sha_hex(decoder_wire(*case, Seq::empty())),
            ),
            oracle_is(r.oracle, "oracle_error"@, sha_hex(Seq::empty()), 0),
            native_is(r.native, "error: "@ + error@, sha_hex(Seq::empty()), 0),
    {
        let nothing: Vec<u8> = Vec::new();
        let all_binary: Vec<u8> = case.to_decoder_oracle_binary(nothing.as_slice());
        let all_input_sha: String = sha256(all_binary.as_slice());
        let mut case_id: String = String::from_str(direction);
        case_id.append("_");
        case_id.append(all_input_sha.as_str());
        let mut variant_le: Vec<u8> = Vec::new();
        push_u32(&mut variant_le, case.variant);
        let mut scale_bits_le: Vec<u8> = Vec::new();
        push_u32(&mut scale_bits_le, case.scale_bits);
        let symbols_le: Vec<u8> = pairs_bytes(case.symbols.as_slice());
        proof {
            assert(variant_le@ =~= u32_le(case.variant));
            assert(scale_bits_le@ =~= u32_le(case.scale_bits));
            assert(nothing@ =~= Seq::<u8>::empty());
        }
        court_record(
            self.id(),
            case_id,
            case.seed,
            case.variant,
            InputHashes {
                pmf_lengths_sha256: sha256(variant_le.as_slice()),
                pmf_offsets_sha256: sha256(scale_bits_le.as_slice()),
                pmf_table_sha256: sha256(symbols_le.as_slice()),
                indices_sha256: String::new(),
                values_sha256: all_input_sha,
            },
            OracleResult {
                status: String::from_str("oracle_error"),
                output_sha256: sha256(nothing.as_slice()),
                length: 0,
            },
            NativeResult {
                status: join("error: ", error),
                output_sha256: sha256(nothing.as_slice()),
                length: 0,
            },
            Comparison { exact: false, first_differing_offset: None, differing_bytes: None },
            classify_error(error),
            ResolutionState::Open,
            rust_commit,
            environment_sha256,
        )
    }
}

} // verus!
