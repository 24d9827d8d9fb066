//! The internal property court (`MSRTC.HARDENING`): raw roundtrip sweeps,
//! prepared-versus-raw equivalence, transactional decoding of corrupted
//! streams, entropy and stream roundtrips, and buffer growth checks. No
//! oracle is involved.
use crate::buffer::{BufferError, HeapResizableBuffer, ResizableBuffer};
use crate::casefile::{
    sha256, sha_hex, Comparison, DifferentialResult, InputHashes, NativeResult, OracleResult,
    ResidualClassification, ResolutionState,
};
use crate::court::{count_exact, CourtResult, CourtStatus};
use crate::corpus::{draw, gen_symbols, xorshift, Lcg};
use crate::entropy::{
    byte_message, decode_spec, decoded_into, encode_bytes, model_of, r64_message, EntropyDecoder, EntropyEncoder,
};
use crate::oracle::{compare_bytes, SCHEMA_VERSION};
use crate::pmf::pmf_check;
use crate::raw_64::{
    lemma_r64_apply_raw, lemma_r64_encode_all_range, lemma_r64_message_roundtrip, r64_decode_all,
    r64_encode_all, r64_lower, r64_upper, Rans64Decoder,
};
use crate::raw_byte::{
    all_valid, byte_decode_all, byte_encode_all, byte_lower, byte_upper, lemma_all_valid_drop_last,
    lemma_byte_apply_raw, lemma_byte_encode_all_range, lemma_byte_message_roundtrip, RansByteDecoder,
};
use crate::raw_cases::{code_symbols_64, code_symbols_64_units, code_symbols_byte, symbol_ops};
use crate::raw_corpus::{lemma_no_symbol_error, lemma_pairs_valid};
use crate::source::SliceSource;
use crate::stream_cases::{
    case_expected, expected_values, rust_stream_decode, rust_stream_encode, stream_decode_case_spec,
    stream_encode_spec, views, StreamBatch, StreamCase,
};
use crate::text::{decimal, dec_chars};
use crate::variant::{Rans64, RansByte, RansVariant};
use vstd::arithmetic::power2::*;
use vstd::bits::*;
use vstd::prelude::*;
use vstd::string::*;

verus! {

/// Prepared-symbol law over whole sequences (RansByte): from any state of
/// the operational range, coding valid symbols (scale at most 23) with
/// prepared symbols gives the same output and state as exact division.
pub proof fn lemma_byte_prepared_sequence(x: nat, s: Seq<(u32, u32)>, sb: u32)
    requires
        byte_lower() <= x < byte_upper(),
        all_valid(symbol_ops(s, sb, false), 23),
    ensures
        byte_encode_all(x, symbol_ops(s, sb, true)) == byte_encode_all(x, symbol_ops(s, sb, false)),
    decreases s.len(),
{
    if s.len() > 0 {
        let raw = symbol_ops(s, sb, false);
        let prep = symbol_ops(s, sb, true);
        assert(symbol_ops(s.drop_last(), sb, false) =~= raw.drop_last());
        assert(symbol_ops(s.drop_last(), sb, true) =~= prep.drop_last());
        lemma_all_valid_drop_last(raw, 23);
        lemma_byte_prepared_sequence(x, s.drop_last(), sb);
        lemma_byte_encode_all_range(x, raw.drop_last());
        let prev = byte_encode_all(x, raw.drop_last());
        lemma_byte_apply_raw(prev.1, prep.last());
        lemma_byte_apply_raw(prev.1, raw.last());
    }
}

/// Prepared-symbol law over whole sequences (Rans64): from any state of
/// the operational range, coding valid symbols with prepared symbols gives
/// the same output and state as exact division.
pub proof fn lemma_r64_prepared_sequence(x: nat, s: Seq<(u32, u32)>, sb: u32)
    requires
        r64_lower() <= x < r64_upper(),
        all_valid(symbol_ops(s, sb, false), 31),
    ensures
        r64_encode_all(x, symbol_ops(s, sb, true)) == r64_encode_all(x, symbol_ops(s, sb, false)),
    decreases s.len(),
{
    if s.len() > 0 {
        let raw = symbol_ops(s, sb, false);
        let prep = symbol_ops(s, sb, true);
        assert(symbol_ops(s.drop_last(), sb, false) =~= raw.drop_last());
        assert(symbol_ops(s.drop_last(), sb, true) =~= prep.drop_last());
        lemma_all_valid_drop_last(raw, 31);
        lemma_r64_prepared_sequence(x, s.drop_last(), sb);
        lemma_r64_encode_all_range(x, raw.drop_last());
        let prev = r64_encode_all(x, raw.drop_last());
        lemma_r64_apply_raw(prev.1, prep.last());
        lemma_r64_apply_raw(prev.1, raw.last());
    }
}

/// Prepared-symbol law for whole messages (RansByte): the message of valid
/// symbols (scale at most 23) coded with prepared symbols is the message
/// coded raw.
pub proof fn lemma_byte_prepared_message(s: Seq<(u32, u32)>, sb: u32)
    requires
        all_valid(symbol_ops(s, sb, false), 23),
    ensures
        byte_message(symbol_ops(s, sb, true)) == byte_message(symbol_ops(s, sb, false)),
{
    lemma_byte_prepared_sequence(0x80_0000, s, sb);
}

/// Prepared-symbol law for whole messages (Rans64): the message of valid
/// symbols coded with prepared symbols is the message coded raw.
pub proof fn lemma_r64_prepared_message(s: Seq<(u32, u32)>, sb: u32)
    requires
        all_valid(symbol_ops(s, sb, false), 31),
    ensures
        r64_message(symbol_ops(s, sb, true)) == r64_message(symbol_ops(s, sb, false)),
{
    lemma_r64_prepared_sequence(0x8000_0000, s, sb);
}

/// `1 << sb` for a scale width of at most 31.
fn scale_for(sb: u32) -> (scale: u32)
    requires
        sb <= 31,
    ensures
        scale == pow2(sb as nat),
        scale >= 1,
{
    proof {
        if sb < 32 {
            lemma_pow2_strictly_increases(sb as nat, 32);
        }
        lemma2_to64();
        lemma_pow2_pos(sb as nat);
        lemma_u32_shl_is_mul(1, sb);
    }
    1u32 << sb
}

/// Generated symbols at scale `2^sb` are valid for every `m >= sb`.
proof fn lemma_generated_valid(s: Seq<(u32, u32)>, sb: u32, m: nat)
    requires
        1 <= sb <= m,
        sb <= 31,
        forall|i: int|
            0 <= i < s.len() ==> {
                let (start, freq) = #[trigger] s[i];
                &&& start < pow2(sb as nat)
                &&& 1 <= freq
                &&& (pow2(sb as nat) >= 2 ==> freq <= pow2(sb as nat) - start && freq < pow2(sb as nat))
            },
    ensures
        all_valid(symbol_ops(s, sb, false), m),
{
    lemma_pow2_strictly_increases(0, sb as nat);
    lemma2_to64();
    assert forall|i: int| 0 <= i < s.len() implies #[trigger] s[i].0 < pow2(sb as nat) && 0 < s[i].1
        && s[i].1 <= pow2(sb as nat) - s[i].0 by {
        let (start, freq) = s[i];
    }
    lemma_pairs_valid(s, sb, m);
}

/// Raw RansByte roundtrip: encode `symbols` with `put_raw` and flush,
/// then decode them last first, checking that the stream initialises, that
/// every slot lies in its symbol's range, that every `advance` succeeds,
/// and that decoding ends at EOF. For valid symbols at up to 23 scale bits
/// this always holds (the roundtrip law).
pub fn roundtrip_byte(symbols: &[(u32, u32)], sb: u32) -> (passed: bool)
    requires
        1 <= sb,
        all_valid(symbol_ops(symbols@, sb, false), 23),
    ensures
        passed,
{
    let ghost ops = symbol_ops(symbols@, sb, false);
    proof {
        assert forall|i: int| 0 <= i < ops.len() implies crate::raw_byte::valid_symbol(
            #[trigger] ops[i].0,
            ops[i].1,
            ops[i].2,
            30,
        ) by {
            assert(crate::raw_byte::valid_symbol(ops[i].0, ops[i].1, ops[i].2, 23));
        }
    }
    let encoded: Vec<u8> = match code_symbols_byte(symbols, sb, false) {
        Ok(b) => b,
        Err(_) => {
            return false;
        },
    };
    let ghost msg = encoded@;
    proof {
        lemma_byte_message_roundtrip(ops);
        assert(ops.take(ops.len() as int) =~= ops);
    }
    let mut dec: RansByteDecoder = RansByteDecoder::new(SliceSource::new(encoded.as_slice()));
    if !dec.init() {
        return false;
    }
    let mut k: usize = symbols.len();
    while k > 0
        invariant
            k <= symbols@.len(),
            ops == symbol_ops(symbols@, sb, false),
            all_valid(ops, 23),
            dec.data() == msg,
            byte_decode_all(dec.spec_state(), ops.take(k as int), msg, dec.pos()) == Some(
                (byte_lower(), msg.len()),
            ),
        decreases k,
    {
        let (s, f) = symbols[k - 1];
        let ghost op = ops[k - 1];
        proof {
            assert(ops.take(k as int).last() == op);
            assert(ops.take(k as int).drop_last() =~= ops.take(k - 1));
            assert(crate::raw_byte::valid_symbol(op.0, op.1, op.2, 23));
            lemma_pow2_strictly_increases(op.2, 32);
            lemma2_to64();
        }
        let got: u32 = dec.get(sb);
        if !(got >= s && got < s + f) {
            return false;
        }
        if !dec.advance(s, f, sb) {
            return false;
        }
        k -= 1;
    }
    dec.check_eof()
}

/// Raw Rans64 roundtrip: encode `symbols` with `put_raw` and flush, then
/// decode them last first, checking initialisation, every slot, every
/// `advance`, and EOF. For valid symbols at up to 31 scale bits this
/// always holds (the roundtrip law).
pub fn roundtrip_64(symbols: &[(u32, u32)], sb: u32) -> (passed: bool)
    requires
        all_valid(symbol_ops(symbols@, sb, false), 31),
    ensures
        passed,
{
    let ghost ops = symbol_ops(symbols@, sb, false);
    let units: Vec<u32> = match code_symbols_64_units(symbols, sb, false) {
        Ok(u) => u,
        Err(_) => {
            return false;
        },
    };
    let ghost msg = units@;
    proof {
        lemma_r64_message_roundtrip(ops);
        assert(ops.take(ops.len() as int) =~= ops);
    }
    let mut dec: Rans64Decoder = Rans64Decoder::new(SliceSource::new(units.as_slice()));
    if !dec.init() {
        return false;
    }
    let mut k: usize = symbols.len();
    while k > 0
        invariant
            k <= symbols@.len(),
            ops == symbol_ops(symbols@, sb, false),
            all_valid(ops, 31),
            dec.data() == msg,
            r64_decode_all(dec.spec_state(), ops.take(k as int), msg, dec.pos()) == Some(
                (r64_lower(), msg.len()),
            ),
        decreases k,
    {
        let (s, f) = symbols[k - 1];
        let ghost op = ops[k - 1];
        proof {
            assert(ops.take(k as int).last() == op);
            assert(ops.take(k as int).drop_last() =~= ops.take(k - 1));
            assert(crate::raw_byte::valid_symbol(op.0, op.1, op.2, 31));
            lemma_pow2_strictly_increases(op.2, 32);
            lemma2_to64();
        }
        let got: u32 = dec.get(sb);
        if !(got >= s && got < s + f) {
            return false;
        }
        if !dec.advance(s, f, sb) {
            return false;
        }
        k -= 1;
    }
    dec.check_eof()
}

/// Whether two byte strings are equal.
fn same_bytes(a: &[u8], b: &[u8]) -> (r: bool)
    ensures
        r == (a@ == b@),
{
    compare_bytes(a, b).exact
}

/// The scale widths of the prepared-versus-raw checks.
fn prepared_bits(q: usize) -> (sb: u32)
    requires
        q < 6,
    ensures
        sb == if q == 0 {
            2u32
        } else if q == 1 {
            8
        } else if q == 2 {
            16
        } else if q == 3 {
            23
        } else if q == 4 {
            24
        } else {
            31
        },
{
    match q {
        0 => 2,
        1 => 8,
        2 => 16,
        3 => 23,
        4 => 24,
        _ => 31,
    }
}

/// Raw roundtrip sweeps (RansByte at scales 2..=23, Rans64 at 2..=31, four
/// seeded 64-symbol sequences each) and prepared-versus-raw output
/// equivalence (RansByte at 2, 8, 16, 23; Rans64 at 2, 8, 16, 23, 24, 31).
/// Every check passes: 88 + 120 + 10.
pub fn run_raw_sweeps() -> (checks: usize)
    ensures
        checks == 218,
{
    let mut checks: usize = 0;
    let mut rng: Lcg = Lcg::new(0x10A);
    let mut sb: u32 = 2;
    while sb <= 23
        invariant
            2 <= sb <= 24,
            checks == 4 * (sb - 2),
        decreases 24 - sb,
    {
        let scale: u32 = scale_for(sb);
        let mut t: usize = 0;
        while t < 4
            invariant
                2 <= sb <= 23,
                scale == pow2(sb as nat),
                scale >= 1,
                t <= 4,
                checks == 4 * (sb - 2) + t,
            decreases 4 - t,
        {
            let symbols: Vec<(u32, u32)> = gen_symbols(&mut rng, scale, 64);
            proof {
                lemma_generated_valid(symbols@, sb, 23);
            }
            if roundtrip_byte(symbols.as_slice(), sb) {
                checks += 1;
            }
            t += 1;
        }
        sb += 1;
    }
    let mut sb: u32 = 2;
    while sb <= 31
        invariant
            2 <= sb <= 32,
            checks == 88 + 4 * (sb - 2),
        decreases 32 - sb,
    {
        let scale: u32 = scale_for(sb);
        let mut t: usize = 0;
        while t < 4
            invariant
                2 <= sb <= 31,
                scale == pow2(sb as nat),
                scale >= 1,
                t <= 4,
                checks == 88 + 4 * (sb - 2) + t,
            decreases 4 - t,
        {
            let symbols: Vec<(u32, u32)> = gen_symbols(&mut rng, scale, 64);
            proof {
                lemma_generated_valid(symbols@, sb, 31);
            }
            if roundtrip_64(symbols.as_slice(), sb) {
                checks += 1;
            }
            t += 1;
        }
        sb += 1;
    }
    let mut q: usize = 0;
    while q < 6
        invariant
            q <= 6,
            checks == 208 + q + if q >= 4 {
                4
            } else {
                q
            },
        decreases 6 - q,
    {
        let sb: u32 = prepared_bits(q);
        let scale: u32 = scale_for(sb);
        let symbols: Vec<(u32, u32)> = gen_symbols(&mut rng, scale, 32);
        proof {
            lemma_generated_valid(symbols@, sb, 31);
            lemma_no_symbol_error(symbols@, sb, 31);
            lemma_r64_prepared_sequence(r64_lower(), symbols@, sb);
            if sb <= 23 {
                lemma_generated_valid(symbols@, sb, 23);
                lemma_generated_valid(symbols@, sb, 30);
                lemma_no_symbol_error(symbols@, sb, 30);
                lemma_byte_prepared_sequence(byte_lower(), symbols@, sb);
            }
        }
        if sb <= 23 {
            let raw_out: Vec<u8> = match code_symbols_byte(symbols.as_slice(), sb, false) {
                Ok(b) => b,
                Err(_) => Vec::new(),
            };
            let prep_out: Vec<u8> = match code_symbols_byte(symbols.as_slice(), sb, true) {
                Ok(b) => b,
                Err(_) => Vec::new(),
            };
            if same_bytes(raw_out.as_slice(), prep_out.as_slice()) {
                checks += 1;
            }
        }
        let raw_out: Vec<u8> = match code_symbols_64(symbols.as_slice(), sb, false) {
            Ok(b) => b,
            Err(_) => Vec::new(),
        };
        let prep_out: Vec<u8> = match code_symbols_64(symbols.as_slice(), sb, true) {
            Ok(b) => b,
            Err(_) => Vec::new(),
        };
        if same_bytes(raw_out.as_slice(), prep_out.as_slice()) {
            checks += 1;
        }
        q += 1;
    }
    checks
}

} // verus!

verus! {

/// The first `n` bytes of `data`.
fn prefix_bytes(data: &[u8], n: usize) -> (out: Vec<u8>)
    requires
        n <= data@.len(),
    ensures
        out@ == data@.subrange(0, n as int),
{
    let mut out: Vec<u8> = Vec::new();
    let mut i: usize = 0;
    while i < n
        invariant
            n <= data@.len(),
            i <= n,
            out@ == data@.subrange(0, i as int),
        decreases n - i,
    {
        out.push(data[i]);
        proof {
            assert(out@ =~= data@.subrange(0, i as int + 1));
        }
        i += 1;
    }
    out
}

/// Decode `symbols` last first from `data`; whether every failed advance
/// left the decoder's state unchanged (a slot below a symbol's start ends
/// the walk).
fn failed_advances_keep_state(data: &[u8], symbols: &[(u32, u32)], sb: u32) -> (ok: bool)
    requires
        sb <= 31,
        forall|i: int|
            0 <= i < symbols@.len() ==> {
                let (s, f) = #[trigger] symbols@[i];
                &&& s < pow2(sb as nat)
                &&& 0 < f <= pow2(sb as nat) - s
            },
    ensures
        ok,
{
    let mut dec: RansByteDecoder = RansByteDecoder::new(SliceSource::new(data));
    if !dec.init() {
        return true;
    }
    let mut k: usize = symbols.len();
    while k > 0
        invariant
            sb <= 31,
            k <= symbols@.len(),
            forall|i: int|
                0 <= i < symbols@.len() ==> {
                    let (s, f) = #[trigger] symbols@[i];
                    &&& s < pow2(sb as nat)
                    &&& 0 < f <= pow2(sb as nat) - s
                },
        decreases k,
    {
        let (s, f) = symbols[k - 1];
        let slot: u32 = dec.get(sb);
        let before: u32 = dec.state();
        if slot < s {
            return true;
        }
        if !dec.advance(s, f, sb) {
            return dec.state() == before;
        }
        k -= 1;
    }
    true
}

/// Corruption robustness (RansByte, scale 16, 32 seeded symbols): every
/// truncation and every single-byte flip of an encoded message decodes
/// without a failed advance changing the state. Both checks pass.
pub fn run_corruption_robustness() -> (checks: usize)
    ensures
        checks == 2,
{
    let mut checks: usize = 0;
    let mut rng: Lcg = Lcg::new(0xC0DE);
    let scale_bits: u32 = 16;
    let scale: u32 = scale_for(scale_bits);
    let symbols: Vec<(u32, u32)> = gen_symbols(&mut rng, scale, 32);
    proof {
        lemma_generated_valid(symbols@, scale_bits, 30);
        let ops = symbol_ops(symbols@, scale_bits, false);
        assert forall|i: int| 0 <= i < symbols@.len() implies {
            let (s, f) = #[trigger] symbols@[i];
            &&& s < pow2(scale_bits as nat)
            &&& 0 < f <= pow2(scale_bits as nat) - s
        } by {
            assert(crate::raw_byte::valid_symbol(ops[i].0, ops[i].1, ops[i].2, 30));
        }
    }
    let full: Vec<u8> = match code_symbols_byte(symbols.as_slice(), scale_bits, false) {
        Ok(b) => b,
        Err(_) => Vec::new(),
    };
    let mut truncation_ok: bool = true;
    let mut cut: usize = 0;
    while cut < full.len()
        invariant
            truncation_ok,
            cut <= full@.len(),
            forall|i: int|
                0 <= i < symbols@.len() ==> {
                    let (s, f) = #[trigger] symbols@[i];
                    &&& s < pow2(scale_bits as nat)
                    &&& 0 < f <= pow2(scale_bits as nat) - s
                },
            scale_bits == 16,
        decreases full@.len() - cut,
    {
        let part: Vec<u8> = prefix_bytes(full.as_slice(), cut);
        if !failed_advances_keep_state(part.as_slice(), symbols.as_slice(), scale_bits) {
            truncation_ok = false;
        }
        cut += 1;
    }
    if truncation_ok {
        checks += 1;
    }
    let mut flip_ok: bool = true;
    let mut flip: usize = 0;
    while flip < full.len()
        invariant
            flip_ok,
            flip <= full@.len(),
            forall|i: int|
                0 <= i < symbols@.len() ==> {
                    let (s, f) = #[trigger] symbols@[i];
                    &&& s < pow2(scale_bits as nat)
                    &&& 0 < f <= pow2(scale_bits as nat) - s
                },
            scale_bits == 16,
        decreases full@.len() - flip,
    {
        let mut data: Vec<u8> = prefix_bytes(full.as_slice(), full.len());
        let b: u8 = data[flip] ^ 0x5A;
        data.set(flip, b);
        if !failed_advances_keep_state(data.as_slice(), symbols.as_slice(), scale_bits) {
            flip_ok = false;
        }
        flip += 1;
    }
    if flip_ok {
        checks += 1;
    }
    checks
}

/// The outcome of an entropy roundtrip: the PMF validates, the batch
/// encodes, and its decode succeeds with the original values.
pub open spec fn entropy_roundtrip_spec(
    symbol_bits: u32,
    bypass_bits: u32,
    v: RansVariant,
    values: Seq<i32>,
    lengths: Seq<i32>,
    offsets: Seq<i32>,
    table: Seq<i32>,
    indices: Seq<i32>,
) -> bool {
    let m = model_of(lengths, offsets, table, symbol_bits as nat, bypass_bits as nat);
    &&& pmf_check(lengths, offsets, table, symbol_bits as nat, bypass_bits as nat, v) is Ok
    &&& match encode_bytes(Some(m), indices, values, v) {
        Err(_) => false,
        Ok(bytes) => {
            let (res, outs) = decode_spec(Some(m), indices, values.len(), v, bytes, true, true);
            &&& res is Ok
            &&& decoded_into(outs, Seq::new(values.len(), |i: int| 0i32)) == values
        },
    }
}

/// Whether two value lists are equal.
fn same_values(a: &[i32], b: &[i32]) -> (r: bool)
    ensures
        r == (a@ == b@),
{
    if a.len() != b.len() {
        return false;
    }
    let mut i: usize = 0;
    while i < a.len()
        invariant
            a@.len() == b@.len(),
            i <= a@.len(),
            forall|k: int| 0 <= k < i ==> a@[k] == b@[k],
        decreases a@.len() - i,
    {
        if a[i] != b[i] {
            proof {
                assert(a@[i as int] != b@[i as int]);
            }
            return false;
        }
        i += 1;
    }
    proof {
        assert(a@ =~= b@);
    }
    true
}

/// Entropy roundtrip: initialise an encoder and a decoder with the PMF,
/// encode the batch, decode it, and compare (variant 0 is Rans64, any
/// other RansByte; see `entropy_roundtrip_spec`).
pub fn entropy_roundtrip(
    symbol_bits: u32,
    bypass_bits: u32,
    variant: u8,
    values: &[i32],
    lengths: &[i32],
    offsets: &[i32],
    table: &[i32],
    indices: &[i32],
) -> (ok: bool)
    ensures
        ok == entropy_roundtrip_spec(
            symbol_bits,
            bypass_bits,
            if variant == 0 {
                RansVariant::Rans64
            } else {
                RansVariant::RansByte
            },
            values@,
            lengths@,
            offsets@,
            table@,
            indices@,
        ),
{
    if variant == 0 {
        let mut enc: EntropyEncoder<Rans64> = EntropyEncoder::new();
        if enc.initialize(lengths, offsets, table, symbol_bits, bypass_bits).is_err() {
            return false;
        }
        let mut buf: Vec<u8> = Vec::new();
        if enc.encode(indices, values, &mut buf).is_err() {
            return false;
        }
        let mut dec: EntropyDecoder<Rans64> = EntropyDecoder::new();
        if dec.initialize(lengths, offsets, table, symbol_bits, bypass_bits).is_err() {
            return false;
        }
        let mut out: Vec<i32> = vec![0i32; values.len()];
        proof {
            assert(out@ =~= Seq::new(values@.len(), |i: int| 0i32));
            assert(Seq::<u8>::empty() + (buf@) =~= buf@);
        }
        let decoded = dec.decode(out.as_mut_slice(), indices, buf.as_slice());
        decoded.is_ok() && same_values(out.as_slice(), values)
    } else {
        let mut enc: EntropyEncoder<RansByte> = EntropyEncoder::new();
        if enc.initialize(lengths, offsets, table, symbol_bits, bypass_bits).is_err() {
            return false;
        }
        let mut buf: Vec<u8> = Vec::new();
        if enc.encode(indices, values, &mut buf).is_err() {
            return false;
        }
        let mut dec: EntropyDecoder<RansByte> = EntropyDecoder::new();
        if dec.initialize(lengths, offsets, table, symbol_bits, bypass_bits).is_err() {
            return false;
        }
        let mut out: Vec<i32> = vec![0i32; values.len()];
        proof {
            assert(out@ =~= Seq::new(values@.len(), |i: int| 0i32));
        }
        let decoded = dec.decode(out.as_mut_slice(), indices, buf.as_slice());
        decoded.is_ok() && same_values(out.as_slice(), values)
    }
}

/// Stream roundtrip: push every batch into one stream, flush, decode the
/// batches last first, and compare with the values pushed.
pub fn stream_roundtrip(case: &StreamCase) -> (ok: bool)
    ensures
        ok == match stream_encode_spec(*case) {
            Err(_) => false,
            Ok(data) => stream_decode_case_spec(*case, data) == Ok::<Seq<Seq<i32>>, Seq<char>>(
                case_expected(*case),
            ),
        },
{
    let data: Vec<u8> = match rust_stream_encode(case) {
        Ok(d) => d,
        Err(_) => {
            return false;
        },
    };
    let decoded: Vec<Vec<i32>> = match rust_stream_decode(case, data.as_slice()) {
        Ok(vs) => vs,
        Err(_) => {
            return false;
        },
    };
    let expected: Vec<Vec<i32>> = expected_values(case);
    if decoded.len() != expected.len() {
        proof {
            assert(views(decoded@).len() != views(expected@).len());
        }
        return false;
    }
    let mut i: usize = 0;
    while i < decoded.len()
        invariant
            decoded@.len() == expected@.len(),
            i <= decoded@.len(),
            stream_encode_spec(*case) == Ok::<Seq<u8>, Seq<char>>(data@),
            stream_decode_case_spec(*case, data@) == Ok::<Seq<Seq<i32>>, Seq<char>>(views(decoded@)),
            views(expected@) == case_expected(*case),
            forall|k: int| 0 <= k < i ==> decoded@[k]@ == expected@[k]@,
        decreases decoded@.len() - i,
    {
        if !same_values(decoded[i].as_slice(), expected[i].as_slice()) {
            proof {
                assert(views(decoded@)[i as int] != views(expected@)[i as int]);
                assert(views(decoded@) != views(expected@));
            }
            return false;
        }
        i += 1;
    }
    proof {
        assert(views(decoded@) =~= views(expected@));
    }
    true
}

/// The values of an entropy sweep: two bypass outliers (`500`, `-500`),
/// then `(i % 9) - 4`.
pub open spec fn sweep_values() -> Seq<i32> {
    Seq::new(
        128,
        |i: int|
            if i == 0 {
                500i32
            } else if i == 1 {
                -500i32
            } else {
                (i % 9 - 4) as i32
            },
    )
}

/// A PMF layout given by its lengths, offsets and table.
pub open spec fn pmf_view(pmf: &(Vec<i32>, Vec<i32>, Vec<i32>)) -> (Seq<i32>, Seq<i32>, Seq<i32>) {
    (pmf.0@, pmf.1@, pmf.2@)
}

/// How many of the two variants' entropy roundtrips of the sweep values
/// hold with one PMF layout (every value from distribution 0).
pub open spec fn sweep_held(sb: u32, bb: u32, pmf: (Seq<i32>, Seq<i32>, Seq<i32>)) -> nat {
    let zeros = Seq::new(128, |i: int| 0i32);
    (if entropy_roundtrip_spec(sb, bb, RansVariant::RansByte, sweep_values(), pmf.0, pmf.1, pmf.2, zeros) {
        1nat
    } else {
        0nat
    }) + (if entropy_roundtrip_spec(sb, bb, RansVariant::Rans64, sweep_values(), pmf.0, pmf.1, pmf.2, zeros) {
        1nat
    } else {
        0nat
    })
}

/// The state after `n` steps of the generator from `x`.
pub open spec fn skip_draws(x: u64, n: nat) -> u64
    decreases n,
{
    if n == 0 {
        x
    } else {
        skip_draws(xorshift(x), (n - 1) as nat)
    }
}

/// The batch counts of `k` stream sweeps from state `x`: each draws a
/// count `1 + below(3)`, then one step per batch.
pub open spec fn sweep_batch_counts(x: u64, k: nat) -> Seq<nat>
    decreases k,
{
    if k == 0 {
        Seq::empty()
    } else {
        let (c, x1) = draw(x, 3);
        let n = (1 + c) as nat;
        seq![n] + sweep_batch_counts(skip_draws(x1, n), (k - 1) as nat)
    }
}

/// A batch of a stream sweep: the pair layout, alternating distributions,
/// values `(i % 7) - 3`.
pub open spec fn sweep_batch_is(b: StreamBatch, pmf: (Seq<i32>, Seq<i32>, Seq<i32>)) -> bool {
    &&& b.pmf_lengths@ == pmf.0
    &&& b.pmf_offsets@ == pmf.1
    &&& b.pmf_table@ == pmf.2
    &&& b.indices@ == Seq::new(64, |i: int| (i % 2) as i32)
    &&& b.values@ == Seq::new(64, |i: int| (i % 7 - 3) as i32)
}

/// A case of a stream sweep: `count` sweep batches at 16 symbol bits and 4
/// bypass bits.
pub open spec fn sweep_case_is(c: StreamCase, variant: u32, count: nat, pmf: (Seq<i32>, Seq<i32>, Seq<i32>)) -> bool {
    &&& c.seed == 0
    &&& c.variant == variant
    &&& c.symbol_bits == 16
    &&& c.bypass_bits == 4
    &&& c.batches@.len() == count
    &&& forall|k: int| 0 <= k < count ==> sweep_batch_is(#[trigger] c.batches@[k], pmf)
}

/// Whether a stream case's roundtrip holds (see `stream_roundtrip`).
pub open spec fn stream_roundtrip_holds(c: StreamCase) -> bool {
    match stream_encode_spec(c) {
        Err(_) => false,
        Ok(data) => stream_decode_case_spec(c, data) == Ok::<Seq<Seq<i32>>, Seq<char>>(case_expected(c)),
    }
}

/// How many of `cases` roundtrip.
pub open spec fn count_held(cases: Seq<StreamCase>) -> nat
    decreases cases.len(),
{
    if cases.len() == 0 {
        0
    } else {
        count_held(cases.drop_last()) + if stream_roundtrip_holds(cases.last()) {
            1nat
        } else {
            0nat
        }
    }
}

/// The variant code of stream sweep `j`: RansByte first, then Rans64.
pub open spec fn sweep_variant(j: int) -> u32 {
    if j % 2 == 0 {
        1
    } else {
        0
    }
}

/// One more generator step after `n` steps.
proof fn lemma_skip_draws_step(x: u64, n: nat)
    ensures
        skip_draws(x, n + 1) == xorshift(skip_draws(x, n)),
    decreases n,
{
    reveal_with_fuel(skip_draws, 2);
    if n > 0 {
        lemma_skip_draws_step(xorshift(x), (n - 1) as nat);
    }
}

/// Steps compose.
proof fn lemma_skip_draws_add(x: u64, a: nat, b: nat)
    ensures
        skip_draws(skip_draws(x, a), b) == skip_draws(x, a + b),
    decreases a,
{
    if a > 0 {
        lemma_skip_draws_add(xorshift(x), (a - 1) as nat, b);
    }
}

/// Step the generator `n` times.
fn skip(rng: &mut Lcg, n: usize)
    ensures
        final(rng).state() == skip_draws(old(rng).state(), n as nat),
{
    let ghost x0 = rng.state();
    let mut k: usize = 0;
    while k < n
        invariant
            k <= n,
            rng.state() == skip_draws(x0, k as nat),
        decreases n - k,
    {
        proof {
            lemma_skip_draws_step(x0, k as nat);
        }
        let _ = rng.below(1);
        k += 1;
    }
}

/// A copy of a slice's values.
fn copy_values(v: &[i32]) -> (r: Vec<i32>)
    ensures
        r@ == v@,
{
    vstd::slice::slice_to_vec(v)
}

/// `count` sweep batches over the pair layout.
fn sweep_batches(pair: &(Vec<i32>, Vec<i32>, Vec<i32>), count: usize) -> (r: Vec<StreamBatch>)
    ensures
        r@.len() == count,
        forall|k: int| 0 <= k < count ==> sweep_batch_is(#[trigger] r@[k], pmf_view(pair)),
{
    let mut out: Vec<StreamBatch> = Vec::new();
    let mut b: usize = 0;
    while b < count
        invariant
            b <= count,
            out@.len() == b,
            forall|k: int| 0 <= k < b ==> sweep_batch_is(#[trigger] out@[k], pmf_view(pair)),
        decreases count - b,
    {
        let mut indices: Vec<i32> = Vec::new();
        let mut values: Vec<i32> = Vec::new();
        let mut i: usize = 0;
        while i < 64
            invariant
                i <= 64,
                indices@ == Seq::new(i as nat, |j: int| (j % 2) as i32),
                values@ == Seq::new(i as nat, |j: int| (j % 7 - 3) as i32),
            decreases 64 - i,
        {
            indices.push((i % 2) as i32);
            values.push((i % 7) as i32 - 3);
            proof {
                assert(indices@ =~= Seq::new((i + 1) as nat, |j: int| (j % 2) as i32));
                assert(values@ =~= Seq::new((i + 1) as nat, |j: int| (j % 7 - 3) as i32));
            }
            i += 1;
        }
        out.push(
            StreamBatch {
                pmf_lengths: copy_values(pair.0.as_slice()),
                pmf_offsets: copy_values(pair.1.as_slice()),
                pmf_table: copy_values(pair.2.as_slice()),
                indices,
                values,
            },
        );
        b += 1;
    }
    out
}

/// One entropy sweep configuration, run four times (one generator step
/// each, for the layout built): both variants' roundtrips, counted.
fn sweep_config(
    rng: &mut Lcg,
    sb: u32,
    bb: u32,
    pmf: &(Vec<i32>, Vec<i32>, Vec<i32>),
    values: &[i32],
    indices: &[i32],
) -> (r: usize)
    requires
        values@ == sweep_values(),
        indices@ == Seq::new(128, |i: int| 0i32),
    ensures
        r == 4 * sweep_held(sb, bb, pmf_view(pmf)),
        final(rng).state() == skip_draws(old(rng).state(), 4),
{
    let ghost held = sweep_held(sb, bb, pmf_view(pmf));
    let ghost x0 = rng.state();
    let mut r: usize = 0;
    let mut t: usize = 0;
    while t < 4
        invariant
            t <= 4,
            values@ == sweep_values(),
            indices@ == Seq::new(128, |i: int| 0i32),
            held == sweep_held(sb, bb, pmf_view(pmf)),
            held <= 2,
            r == t * held,
            rng.state() == skip_draws(x0, t as nat),
        decreases 4 - t,
    {
        let mut n: usize = 0;
        if entropy_roundtrip(sb, bb, 1, values, pmf.0.as_slice(), pmf.1.as_slice(), pmf.2.as_slice(), indices) {
            n += 1;
        }
        if entropy_roundtrip(sb, bb, 0, values, pmf.0.as_slice(), pmf.1.as_slice(), pmf.2.as_slice(), indices) {
            n += 1;
        }
        proof {
            lemma_skip_draws_step(x0, t as nat);
            assert(n == held);
            assert((t + 1) * held == t * held + held) by (nonlinear_arith);
            assert(t * held <= 6) by (nonlinear_arith)
                requires
                    t < 4,
                    held <= 2,
            ;
        }
        let _ = rng.below(1);
        r += n;
        t += 1;
    }
    r
}

/// One stream sweep's batch count, then the rest.
proof fn lemma_counts_step(x: u64, k: nat)
    ensures
        draw(x, 3).0 < 3,
        sweep_batch_counts(x, k + 1) == seq![(1 + draw(x, 3).0) as nat] + sweep_batch_counts(
            skip_draws(draw(x, 3).1, (1 + draw(x, 3).0) as nat),
            k,
        ),
{
}

/// Two more sweep cases keep the sweep description and add their
/// roundtrips to the count.
proof fn lemma_cases_extend(
    cases: Seq<StreamCase>,
    done: Seq<nat>,
    byte_case: StreamCase,
    wide_case: StreamCase,
    n: nat,
    pmf: (Seq<i32>, Seq<i32>, Seq<i32>),
)
    requires
        cases.len() == 2 * done.len(),
        forall|j: int| 0 <= j < cases.len() ==> sweep_case_is(#[trigger] cases[j], sweep_variant(j), done[j / 2], pmf),
        sweep_case_is(byte_case, 1, n, pmf),
        sweep_case_is(wide_case, 0, n, pmf),
    ensures
        forall|j: int|
            0 <= j < cases.len() + 2 ==> sweep_case_is(
                #[trigger] cases.push(byte_case).push(wide_case)[j],
                sweep_variant(j),
                done.push(n)[j / 2],
                pmf,
            ),
        count_held(cases.push(byte_case).push(wide_case)) == count_held(cases) + (if stream_roundtrip_holds(
            byte_case,
        ) {
            1nat
        } else {
            0nat
        }) + (if stream_roundtrip_holds(wide_case) {
            1nat
        } else {
            0nat
        }),
{
    let c1 = cases.push(byte_case);
    let c2 = c1.push(wide_case);
    let d2 = done.push(n);
    assert(c1.drop_last() =~= cases);
    assert(c2.drop_last() =~= c1);
    assert(c1.last() == byte_case);
    assert(c2.last() == wide_case);
    assert(count_held(c1) == count_held(cases) + (if stream_roundtrip_holds(byte_case) {
        1nat
    } else {
        0nat
    }));
    assert forall|j: int| 0 <= j < cases.len() + 2 implies sweep_case_is(
        #[trigger] c2[j],
        sweep_variant(j),
        d2[j / 2],
        pmf,
    ) by {
        if j < cases.len() {
            assert(c2[j] == cases[j]);
            assert(d2[j / 2] == done[j / 2]);
        } else if j == cases.len() {
            assert(c2[j] == byte_case);
            assert(j / 2 == done.len());
        } else {
            assert(c2[j] == wide_case);
            assert(j / 2 == done.len());
        }
    }
}

/// Entropy and stream roundtrip sweeps over given PMF layouts: `narrow`
/// (8-bit scale, one distribution), `wide` (16-bit scale, one
/// distribution) and `pair` (16-bit scale, two distributions), which the
/// caller derives with floating point. Each of the configurations
/// (8, 2), (16, 2), (16, 4) of symbol and bypass bits runs four times,
/// both variants; then four stream sweeps of `1 + below(3)` batches run
/// with both variants, the generator stepping once per layout built. The
/// result counts the roundtrips that held.
pub fn run_entropy_sweeps(
    narrow: &(Vec<i32>, Vec<i32>, Vec<i32>),
    wide: &(Vec<i32>, Vec<i32>, Vec<i32>),
    pair: &(Vec<i32>, Vec<i32>, Vec<i32>),
) -> (checks: usize)
    ensures
        exists|cases: Seq<StreamCase>|
            {
                &&& cases.len() == 8
                &&& forall|j: int|
                    0 <= j < 8 ==> sweep_case_is(
                        #[trigger] cases[j],
                        sweep_variant(j),
                        sweep_batch_counts(skip_draws(0xE97, 12), 4)[j / 2],
                        pmf_view(pair),
                    )
                &&& checks == 4 * (sweep_held(8, 2, pmf_view(narrow)) + sweep_held(16, 2, pmf_view(wide))
                    + sweep_held(16, 4, pmf_view(wide))) + count_held(cases)
            },
{
    let mut values: Vec<i32> = Vec::new();
    let mut i: usize = 0;
    while i < 128
        invariant
            i <= 128,
            values@ == sweep_values().subrange(0, i as int),
        decreases 128 - i,
    {
        let v: i32 = if i == 0 {
            500
        } else if i == 1 {
            -500
        } else {
            (i % 9) as i32 - 4
        };
        values.push(v);
        proof {
            assert(values@ =~= sweep_values().subrange(0, i + 1));
        }
        i += 1;
    }
    proof {
        assert(values@ =~= sweep_values());
    }
    let indices: Vec<i32> = vec![0i32; 128];
    proof {
        assert(indices@ =~= Seq::new(128, |i: int| 0i32));
    }
    let mut rng: Lcg = Lcg::new(0xE97);
    let a: usize = sweep_config(&mut rng, 8, 2, narrow, values.as_slice(), indices.as_slice());
    let b: usize = sweep_config(&mut rng, 16, 2, wide, values.as_slice(), indices.as_slice());
    let c: usize = sweep_config(&mut rng, 16, 4, wide, values.as_slice(), indices.as_slice());
    proof {
        lemma_skip_draws_add(0xE97, 4, 4);
        lemma_skip_draws_add(0xE97, 8, 4);
    }
    let ghost entropy: nat = (a + b + c) as nat;
    let ghost all_counts = sweep_batch_counts(skip_draws(0xE97, 12), 4);
    let ghost mut done: Seq<nat> = Seq::empty();
    let ghost mut cases: Seq<StreamCase> = Seq::empty();
    let mut checks: usize = a + b + c;
    let mut t: usize = 0;
    while t < 4
        invariant
            t <= 4,
            done.len() == t,
            all_counts == done + sweep_batch_counts(rng.state(), (4 - t) as nat),
            cases.len() == 2 * t,
            forall|j: int|
                0 <= j < 2 * t ==> sweep_case_is(#[trigger] cases[j], sweep_variant(j), done[j / 2], pmf_view(pair)),
            checks == entropy + count_held(cases),
            count_held(cases) <= 2 * t,
            entropy <= 24,
        decreases 4 - t,
    {
        let ghost x = rng.state();
        let drawn: u64 = rng.below(3);
        proof {
            lemma_counts_step(x, (3 - t) as nat);
        }
        let count: usize = 1 + drawn as usize;
        skip(&mut rng, count);
        proof {
            assert(all_counts == done.push(count as nat) + sweep_batch_counts(rng.state(), (4 - (t + 1)) as nat));
        }
        let byte_case = StreamCase {
            seed: 0,
            variant: 1,
            symbol_bits: 16,
            bypass_bits: 4,
            batches: sweep_batches(pair, count),
        };
        let wide_case = StreamCase {
            seed: 0,
            variant: 0,
            symbol_bits: 16,
            bypass_bits: 4,
            batches: sweep_batches(pair, count),
        };
        let ok_byte: bool = stream_roundtrip(&byte_case);
        let ok_wide: bool = stream_roundtrip(&wide_case);
        proof {
            lemma_cases_extend(cases, done, byte_case, wide_case, count as nat, pmf_view(pair));
            cases = cases.push(byte_case).push(wide_case);
            done = done.push(count as nat);
        }
        if ok_byte {
            checks += 1;
        }
        if ok_wide {
            checks += 1;
        }
        t += 1;
    }
    proof {
        assert(done =~= all_counts);
    }
    checks
}

/// Allocation checks: a growth commits, a rollback keeps the capacity, and
/// an overflowing growth is a typed error. All three pass.
pub fn run_allocation_checks() -> (checks: usize)
    ensures
        checks == 3,
{
    let mut checks: usize = 0;
    let mut b: HeapResizableBuffer = HeapResizableBuffer::new(512, 512);
    let grown: bool = b.begin_to_grow().is_ok();
    if grown {
        b.commit();
        checks += 1;
    }
    let mut b: HeapResizableBuffer = HeapResizableBuffer::new(512, 512);
    let _ = b.begin_to_grow();
    b.rollback();
    if b.capacity() == 512 {
        checks += 1;
    }
    match checked_growth_overflow() {
        Err(BufferError::CapacityOverflow) => {
            checks += 1;
        },
        Ok(_) => {},
    }
    checks
}

/// Growing a buffer of `usize::MAX / 2 + 1` bytes by as much overflows:
/// a typed error.
pub fn checked_growth_overflow() -> (r: Result<usize, BufferError>)
    ensures
        r == Err::<usize, BufferError>(BufferError::CapacityOverflow),
{
    let old_len: usize = usize::MAX / 2 + 1;
    let step: usize = old_len;
    match old_len.checked_add(step) {
        Some(_) => Ok(old_len),
        None => Err(BufferError::CapacityOverflow),
    }
}

/// The internal property court (`MSRTC.HARDENING`).
pub struct HardeningCourt;

impl HardeningCourt {
    /// The court identifier.
    pub fn id(&self) -> (s: &'static str)
        ensures
            s@ == "MSRTC.HARDENING"@,
    {
        "MSRTC.HARDENING"
    }
}

/// `r` is the record of the hardening battery `name`: `<name>:sub_checks=<n>`,
/// the battery's name hashed as the native output, `ok` or `failed`.
pub open spec fn is_hardening_record(
    r: DifferentialResult,
    name: &str,
    passed: bool,
    sub_checks: u64,
    rust_commit: &str,
    environment_sha256: &str,
) -> bool {
    &&& r.schema_version == SCHEMA_VERSION
    &&& r.court_id@ == "MSRTC.HARDENING"@
    &&& r.case_id@ == name@ + ":sub_checks="@ + dec_chars(sub_checks as nat)
    &&& r.oracle_commit@ == "n/a (internal property court)"@
    &&& r.rust_commit@ == rust_commit@
    &&& r.seed == 0
    &&& r.variant@ == "n/a"@
    &&& r.input_hashes.pmf_lengths_sha256@ == Seq::<char>::empty()
    &&& r.input_hashes.pmf_offsets_sha256@ == Seq::<char>::empty()
    &&& r.input_hashes.pmf_table_sha256@ == Seq::<char>::empty()
    &&& r.input_hashes.indices_sha256@ == Seq::<char>::empty()
    &&& r.input_hashes.values_sha256@ == Seq::<char>::empty()
    &&& r.oracle.status@ == "n/a"@
    &&& r.oracle.output_sha256@ == Seq::<char>::empty()
    &&& r.oracle.length == 0
    &&& r.native.status@ == if passed {
        "ok"@
    } else {
        "failed"@
    }
    &&& r.native.output_sha256@ == sha_hex(name.spec_bytes())
    &&& r.native.length == sub_checks
    &&& r.comparison == (Comparison { exact: passed, first_differing_offset: None, differing_bytes: None })
    &&& r.classification == if passed {
        ResidualClassification::Unclassified
    } else {
        ResidualClassification::NativeBug
    }
    &&& r.resolution == ResolutionState::Open
    &&& r.minimized_casefile is None
    &&& r.environment_sha256@ == environment_sha256@
}

/// The record of one hardening battery (see `is_hardening_record`).
pub fn hardening_result(
    name: &str,
    passed: bool,
    sub_checks: u64,
    rust_commit: &str,
    environment_sha256: &str,
) -> (r: DifferentialResult)
    ensures
        is_hardening_record(r, name, passed, sub_checks, rust_commit, environment_sha256),
{
    let mut case_id: String = String::from_str(name);
    case_id.append(":sub_checks=");
    case_id.append(decimal(sub_checks).as_str());
    DifferentialResult {
        schema_version: SCHEMA_VERSION,
        court_id: String::from_str("MSRTC.HARDENING"),
        case_id,
        oracle_commit: String::from_str("n/a (internal property court)"),
        rust_commit: String::from_str(rust_commit),
        seed: 0,
        variant: String::from_str("n/a"),
        input_hashes: InputHashes {
            pmf_lengths_sha256: String::new(),
            pmf_offsets_sha256: String::new(),
            pmf_table_sha256: String::new(),
            indices_sha256: String::new(),
            values_sha256: String::new(),
        },
        oracle: OracleResult { status: String::from_str("n/a"), output_sha256: String::new(), length: 0 },
        native: NativeResult {
            status: if passed {
                String::from_str("ok")
            } else {
                String::from_str("failed")
            },
            output_sha256: sha256(name.as_bytes()),
            length: sub_checks,
        },
        comparison: Comparison { exact: passed, first_differing_offset: None, differing_bytes: None },
        classification: if passed {
            ResidualClassification::Unclassified
        } else {
            ResidualClassification::NativeBug
        },
        resolution: ResolutionState::Open,
        minimized_casefile: None,
        environment_sha256: String::from_str(environment_sha256),
    }
}

/// One for a battery that ran at least one check.
pub open spec fn passed_one(count: usize) -> nat {
    if count > 0 {
        1
    } else {
        0
    }
}

/// The hardening court's result from the four batteries' check counts: a
/// battery passes when it ran at least one check, and the court passes
/// when every battery does.
pub fn hardening_court_result(
    raw: usize,
    corrupt: usize,
    entropy: usize,
    alloc: usize,
    rust_commit: &str,
    environment_sha256: &str,
) -> (r: CourtResult)
    ensures
        r.court_id@ == "MSRTC.HARDENING"@,
        r.results@.len() == 4,
        is_hardening_record(r.results@[0], "raw_sweeps", raw > 0, raw as u64, rust_commit, environment_sha256),
        is_hardening_record(
            r.results@[1],
            "corruption_robustness",
            corrupt > 0,
            corrupt as u64,
            rust_commit,
            environment_sha256,
        ),
        is_hardening_record(
            r.results@[2],
            "entropy_sweeps",
            entropy > 0,
            entropy as u64,
            rust_commit,
            environment_sha256,
        ),
        is_hardening_record(
            r.results@[3],
            "allocation_checks",
            alloc > 0,
            alloc as u64,
            rust_commit,
            environment_sha256,
        ),
        r.case_count == 4,
        r.pass_count == passed_one(raw) + passed_one(corrupt) + passed_one(entropy) + passed_one(alloc),
        r.residual_count == 4 - r.pass_count,
        r.skipped_count == 0,
        r.status == if raw > 0 && corrupt > 0 && entropy > 0 && alloc > 0 {
            CourtStatus::Passed
        } else {
            CourtStatus::Failed
        },
{
    let mut results: Vec<DifferentialResult> = Vec::new();
    results.push(hardening_result("raw_sweeps", raw > 0, raw as u64, rust_commit, environment_sha256));
    results.push(
        hardening_result("corruption_robustness", corrupt > 0, corrupt as u64, rust_commit, environment_sha256),
    );
    results.push(hardening_result("entropy_sweeps", entropy > 0, entropy as u64, rust_commit, environment_sha256));
    results.push(hardening_result("allocation_checks", alloc > 0, alloc as u64, rust_commit, environment_sha256));
    proof {
        let rs = results@;
        assert(rs.drop_last().drop_last().drop_last().drop_last() =~= Seq::<DifferentialResult>::empty());
        assert(rs.drop_last().drop_last().drop_last().last() == rs[0]);
        assert(rs.drop_last().drop_last().last() == rs[1]);
        assert(rs.drop_last().last() == rs[2]);
        assert(rs[0].comparison.exact == (raw > 0));
        assert(rs[1].comparison.exact == (corrupt > 0));
        assert(rs[2].comparison.exact == (entropy > 0));
        assert(rs[3].comparison.exact == (alloc > 0));
        reveal_with_fuel(count_exact, 5);
        assert(count_exact(rs) == passed_one(raw) + passed_one(corrupt) + passed_one(entropy) + passed_one(
            alloc,
        ));
    }
    CourtResult::tally("MSRTC.HARDENING", results)
}

} // verus!
