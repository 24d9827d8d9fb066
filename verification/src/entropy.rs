//! The entropy coder: values are mapped through PMF distributions to raw
//! rANS symbols; values outside a distribution's range are coded as the
//! bypass sentinel followed by an explicit bypass payload.
use crate::pmf::{
    build_symbol_table, check_bits, cum, dist_of, freqs_ok, initialize_distribution_desc, is_entry_of,
    layout_ok, len_sum, lemma_len_sum_entry, lemma_len_sum_mono, lemma_len_sum_nonneg, pmf_check, pmf_entry,
    pmf_start, safe_bits, DistributionDesc,
};
use crate::raw_64::{
    r64_advance, r64_init, r64_lower, Rans64Decoder, Rans64DecSymbol, prepare_64, r64_apply, r64_encode_all,
    r64_flush_units, Rans64EncSymbol, Rans64Encoder,
};
use crate::raw_byte::{
    byte_advance, byte_apply, byte_dec_renorm, byte_encode_all, byte_init, byte_lower, le_bytes4, le_value4,
    prepare_byte, rans_unstep, valid_symbol, RansByteDecSymbol, RansByteDecoder, RansByteEncSymbol,
    RansByteEncoder, RawOp,
};
use crate::sink::VecSink;
use crate::source::{SliceSource, Source};
use crate::variant::{Rans64, RansByte, RansParams, RansVariant};
use crate::Freq;
use core::marker::PhantomData;
use vstd::arithmetic::div_mod::*;
use vstd::arithmetic::power2::*;
use vstd::bits::*;
use vstd::prelude::*;

verus! {

/// Errors that can occur during entropy encode/decode operations.
#[derive(Debug, Clone, Copy, PartialEq, Eq, Structural)]
pub enum EntropyError {
    /// Invalid PMF data (lengths, offsets, or table).
    InvalidPmf,
    /// Invalid parameter value (symbol bits, bypass bits, mismatched lengths).
    InvalidParams,
    /// Encoder/decoder is not initialized.
    InvalidState,
    /// Stream data is truncated or corrupted.
    InvalidStream,
    /// Raw rANS primitive error.
    RawRansError(crate::error::RawRansError),
}

/// The tables an initialised entropy coder holds.
pub struct EntropyModel {
    /// Probability precision of the symbol table.
    pub symbol_bits: nat,
    /// Digit width of bypass payloads.
    pub bypass_bits: nat,
    /// Number of entries per distribution (the last is the bypass tail).
    pub lengths: Seq<i32>,
    /// Value offset per distribution.
    pub offsets: Seq<i32>,
    /// All frequencies, distribution after distribution.
    pub table: Seq<i32>,
}

/// The model built by a successful initialisation.
pub open spec fn model_of(
    lengths: Seq<i32>,
    offsets: Seq<i32>,
    table: Seq<i32>,
    symbol_bits: nat,
    bypass_bits: nat,
) -> EntropyModel {
    EntropyModel { symbol_bits, bypass_bits, lengths, offsets, table }
}

/// The model passes validation for the variant.
pub open spec fn model_ok(m: EntropyModel, v: RansVariant) -> bool {
    pmf_check(m.lengths, m.offsets, m.table, m.symbol_bits, m.bypass_bits, v) is Ok
}

/// The largest bypass digit, `2^bypass_bits - 1` (it also marks "more to follow"
/// in the digit count).
pub open spec fn bypass_max(bypass_bits: nat) -> nat {
    (pow2(bypass_bits) - 1) as nat
}

/// The base-`2^bypass_bits` digits of `v`, least significant first (none for 0).
pub open spec fn bypass_digits(v: nat, bypass_bits: nat) -> Seq<nat>
    decreases v,
{
    if v == 0 || bypass_bits == 0 {
        Seq::empty()
    } else {
        proof {
            lemma_pow2_strictly_increases(0, bypass_bits);
            lemma2_to64();
            lemma_div_decreases(v as int, pow2(bypass_bits) as int);
        }
        seq![v % pow2(bypass_bits)] + bypass_digits(v / pow2(bypass_bits), bypass_bits)
    }
}

/// A raw operation coding `value` with frequency one at `bits`.
pub open spec fn unit_op(value: nat, bits: nat) -> RawOp {
    (value, 1nat, bits, false)
}

/// The operations that code a bypass value: its digits (most significant
/// first), then the digit count as a remainder modulo the largest digit,
/// then one largest digit per full multiple.
pub open spec fn bypass_ops(v: nat, bypass_bits: nat) -> Seq<RawOp> {
    let ds = bypass_digits(v, bypass_bits);
    let c = ds.len();
    let mx = bypass_max(bypass_bits);
    Seq::new(c, |i: int| unit_op(ds[c - 1 - i], bypass_bits)) + seq![
        unit_op(c % mx, bypass_bits),
    ] + Seq::new(c / mx, |i: int| unit_op(mx, bypass_bits))
}

/// The prepared-symbol operation for entry `k` of distribution `d`.
pub open spec fn sym_op(m: EntropyModel, d: int, k: int) -> RawOp {
    (
        pmf_start(m.lengths, m.table, d, k) as nat,
        pmf_entry(m.lengths, m.table, d, k) as nat,
        m.symbol_bits,
        true,
    )
}

/// The bypass value of an out-of-range adjusted value: negative values map
/// to odd codes, values at or above the sentinel to even codes.
pub open spec fn bypass_value(adjusted: int, sentinel: int) -> nat {
    if adjusted < 0 {
        (2 * (-adjusted) - 1) as nat
    } else {
        (2 * (adjusted - sentinel)) as nat
    }
}

/// Where a coded element goes: its distribution, the entry it is coded
/// with, and its bypass value when it lies outside the distribution's
/// range; `None` when the adjusted value overflows 32 bits.
pub open spec fn elem_plan(m: EntropyModel, index: i32, value: i32) -> Option<(int, int, Option<nat>)> {
    let d = dist_of(index as int, m.lengths.len() as int);
    let sentinel = m.lengths[d] - 1;
    let adjusted = value + m.offsets[d];
    if adjusted < i32::MIN || adjusted > i32::MAX {
        None
    } else if adjusted < 0 || adjusted >= sentinel {
        if adjusted == i32::MIN {
            None
        } else {
            Some((d, sentinel, Some(bypass_value(adjusted, sentinel))))
        }
    } else {
        Some((d, adjusted, None))
    }
}

/// The operations coding one element (none for a negative index), or
/// `None` when the adjusted value overflows 32 bits.
pub open spec fn elem_ops(m: EntropyModel, index: i32, value: i32) -> Option<Seq<RawOp>> {
    if index < 0 {
        Some(Seq::empty())
    } else {
        match elem_plan(m, index, value) {
            None => None,
            Some((d, k, bv)) => Some(
                match bv {
                    Some(b) => bypass_ops(b, m.bypass_bits),
                    None => Seq::empty(),
                } + seq![sym_op(m, d, k)],
            ),
        }
    }
}

/// Encoding elements `j..` runs from the last element down to `j`: the
/// operations applied (in order) and whether every element coded.
pub open spec fn batch_run(m: EntropyModel, indices: Seq<i32>, values: Seq<i32>, j: nat) -> (
    Seq<RawOp>,
    bool,
)
    decreases indices.len() - j,
{
    if j >= indices.len() {
        (Seq::empty(), true)
    } else {
        let prev = batch_run(m, indices, values, j + 1);
        if !prev.1 {
            prev
        } else {
            match elem_ops(m, indices[j as int], values[j as int]) {
                Some(e) => (prev.0 + e, true),
                None => (prev.0, false),
            }
        }
    }
}

/// The result of encoding a batch onto a raw encoder: `Ok` with the
/// operations, or the error with the operations applied before it.
pub open spec fn batch_result(m: Option<EntropyModel>, indices: Seq<i32>, values: Seq<i32>) -> (
    Result<(), EntropyError>,
    Seq<RawOp>,
) {
    match m {
        None => (Err(EntropyError::InvalidState), Seq::empty()),
        Some(m) => if indices.len() != values.len() {
            (Err(EntropyError::InvalidParams), Seq::empty())
        } else {
            let run = batch_run(m, indices, values, 0);
            (if run.1 {
                Ok(())
            } else {
                Err(EntropyError::InvalidParams)
            }, run.0)
        },
    }
}

/// The bytes of a RansByte message: the flushed state, then the output.
pub open spec fn byte_message(ops: Seq<RawOp>) -> Seq<u8> {
    let (out, xn) = byte_encode_all(0x80_0000, ops);
    le_bytes4(xn) + out
}

/// Little-endian bytes of a sequence of 32-bit units.
pub open spec fn units_le_bytes(units: Seq<u32>) -> Seq<u8>
    decreases units.len(),
{
    if units.len() == 0 {
        Seq::empty()
    } else {
        units_le_bytes(units.drop_last()) + le_bytes4(units.last() as nat)
    }
}

/// The bytes of a Rans64 message: the flushed state, then the output, as
/// little-endian 32-bit units.
pub open spec fn r64_message(ops: Seq<RawOp>) -> Seq<u8> {
    let (out, xn) = r64_encode_all(0x8000_0000, ops);
    units_le_bytes(r64_flush_units(xn) + out)
}

/// The bytes appended by a one-shot encode of a batch.
pub open spec fn encode_bytes(
    m: Option<EntropyModel>,
    indices: Seq<i32>,
    values: Seq<i32>,
    v: RansVariant,
) -> Result<Seq<u8>, EntropyError> {
    let (r, ops) = batch_result(m, indices, values);
    match r {
        Ok(()) => Ok(
            match v {
                RansVariant::RansByte => byte_message(ops),
                RansVariant::Rans64 => r64_message(ops),
            },
        ),
        Err(e) => Err(e),
    }
}

/// Maps a variant marker to its unit type and the unit-to-byte conversion.
pub trait EncoderVariantForS: RansParams {
    /// The unit type of the variant's raw coder.
    type Unit: Copy;

    /// The byte form of a sequence of units.
    spec fn spec_units_to_bytes(units: Seq<Self::Unit>) -> Seq<u8>;

    /// Convert raw encoder units to bytes.
    fn units_to_bytes(units: Vec<Self::Unit>) -> (b: Vec<u8>)
        ensures
            b@ == Self::spec_units_to_bytes(units@),
    ;
}

impl EncoderVariantForS for RansByte {
    type Unit = u8;

    open spec fn spec_units_to_bytes(units: Seq<u8>) -> Seq<u8> {
        units
    }

    fn units_to_bytes(units: Vec<u8>) -> (b: Vec<u8>) {
        units
    }
}

impl EncoderVariantForS for Rans64 {
    type Unit = u32;

    open spec fn spec_units_to_bytes(units: Seq<u32>) -> Seq<u8> {
        units_le_bytes(units)
    }

    fn units_to_bytes(units: Vec<u32>) -> (b: Vec<u8>) {
        crate::stream::units_to_le_bytes(units.as_slice())
    }
}

/// High-level entropy encoder using PMF distributions with bypass support,
/// for the variant `S` (`RansByte` or `Rans64`).
pub struct EntropyEncoder<S: RansParams> {
    symbol_bits: u32,
    bypass_bits: u32,
    bypass_max_value: u32,
    descs: Vec<DistributionDesc>,
    byte_symbols: Vec<RansByteEncSymbol>,
    wide_symbols: Vec<Rans64EncSymbol>,
    model: Ghost<Option<EntropyModel>>,
    _s: PhantomData<S>,
}

/// The descriptors match the model's layout.
pub open spec fn descs_match(descs: Seq<DistributionDesc>, m: EntropyModel) -> bool {
    &&& descs.len() == m.lengths.len()
    &&& forall|d: int|
        0 <= d < descs.len() ==> (#[trigger] descs[d]).value_offset == m.offsets[d]
            && descs[d].bypass_sentinel == m.lengths[d] - 1 && descs[d].symbol_offset == len_sum(
            m.lengths,
            d,
        )
}

impl<S: RansParams> EntropyEncoder<S> {
    /// The tables held, `None` before a successful `initialize`.
    pub closed spec fn model(&self) -> Option<EntropyModel> {
        self.model@
    }

    /// The encoder's invariant: the executable tables match the model.
    pub closed spec fn wf(&self) -> bool {
        match self.model@ {
            None => self.symbol_bits == 0,
            Some(m) => {
                &&& model_ok(m, S::spec_variant())
                &&& m.table.len() <= usize::MAX
                &&& self.symbol_bits == m.symbol_bits
                &&& self.bypass_bits == m.bypass_bits
                &&& self.bypass_max_value == bypass_max(m.bypass_bits)
                &&& descs_match(self.descs@, m)
                &&& S::spec_variant() == RansVariant::RansByte ==> {
                    &&& self.byte_symbols@.len() == m.table.len()
                    &&& forall|d: int, k: int|
                        0 <= d < m.lengths.len() && 0 <= k < m.lengths[d]
                            ==> self.byte_symbols@[len_sum(m.lengths, d) + k] == prepare_byte(
                            #[trigger] pmf_start(m.lengths, m.table, d, k) as nat,
                            pmf_entry(m.lengths, m.table, d, k) as nat,
                            m.symbol_bits,
                        )
                }
                &&& S::spec_variant() == RansVariant::Rans64 ==> {
                    &&& self.wide_symbols@.len() == m.table.len()
                    &&& forall|d: int, k: int|
                        0 <= d < m.lengths.len() && 0 <= k < m.lengths[d]
                            ==> self.wide_symbols@[len_sum(m.lengths, d) + k] == prepare_64(
                            #[trigger] pmf_start(m.lengths, m.table, d, k) as nat,
                            pmf_entry(m.lengths, m.table, d, k) as nat,
                            m.symbol_bits,
                        )
                }
            },
        }
    }

    /// Create a new uninitialised entropy encoder.
    pub fn new() -> (e: Self)
        ensures
            e.wf(),
            e.model() is None,
    {
        Self {
            symbol_bits: 0,
            bypass_bits: 0,
            bypass_max_value: 0,
            descs: Vec::new(),
            byte_symbols: Vec::new(),
            wide_symbols: Vec::new(),
            model: Ghost(None),
            _s: PhantomData,
        }
    }

    /// Initialise the encoder with PMF distribution data.
    ///
    /// * `pmf_lengths` — number of symbols per distribution (including the bypass sentinel)
    /// * `pmf_offsets` — value offsets per distribution
    /// * `pmf_table` — flat array of symbol frequencies for all distributions
    /// * `symbol_bits` — number of bits of symbol probability precision
    /// * `bypass_bits` — number of bits per bypass digit
    ///
    /// On error the encoder is left unchanged.
    pub fn initialize(
        &mut self,
        pmf_lengths: &[i32],
        pmf_offsets: &[i32],
        pmf_table: &[i32],
        symbol_bits: u32,
        bypass_bits: u32,
    ) -> (r: Result<(), EntropyError>)
        requires
            old(self).wf(),
        ensures
            final(self).wf(),
            r == pmf_check(
                pmf_lengths@,
                pmf_offsets@,
                pmf_table@,
                symbol_bits as nat,
                bypass_bits as nat,
                S::spec_variant(),
            ),
            r is Ok ==> final(self).model() == Some(
                model_of(
                    pmf_lengths@,
                    pmf_offsets@,
                    pmf_table@,
                    symbol_bits as nat,
                    bypass_bits as nat,
                ),
            ),
            r is Err ==> *final(self) == *old(self),
    {
        let variant: RansVariant = S::variant();
        let max_scale_bits: u32 = match variant {
            RansVariant::RansByte => 30,
            RansVariant::Rans64 => 32,
        };
        check_bits(symbol_bits, max_scale_bits)?;
        check_bits(bypass_bits, max_scale_bits)?;
        let max_safe_bits: u32 = match variant {
            RansVariant::RansByte => 30,
            RansVariant::Rans64 => 31,
        };
        if symbol_bits > max_safe_bits || bypass_bits > max_safe_bits {
            return Err(EntropyError::InvalidParams);
        }
        let descs: Vec<DistributionDesc> = initialize_distribution_desc(
            pmf_lengths,
            pmf_offsets,
            pmf_table.len(),
        )?;
        let (starts, freqs) = build_symbol_table(&descs, pmf_lengths, pmf_table, symbol_bits)?;
        let ghost m = model_of(
            pmf_lengths@,
            pmf_offsets@,
            pmf_table@,
            symbol_bits as nat,
            bypass_bits as nat,
        );
        proof {
            lemma2_to64();
            lemma_pow2_strictly_increases(bypass_bits as nat, 32);
            lemma_u32_shl_is_mul(1, bypass_bits);
        }
        let mut byte_symbols: Vec<RansByteEncSymbol> = Vec::new();
        let mut wide_symbols: Vec<Rans64EncSymbol> = Vec::new();
        match variant {
            RansVariant::RansByte => {
                byte_symbols = prepare_byte_table(&starts, &freqs, symbol_bits, Ghost(m));
            },
            RansVariant::Rans64 => {
                wide_symbols = prepare_wide_table(&starts, &freqs, symbol_bits, Ghost(m));
            },
        }
        let bypass_max_value: u32 = (1u32 << bypass_bits) - 1;
        *self = Self {
            symbol_bits,
            bypass_bits,
            bypass_max_value,
            descs,
            byte_symbols,
            wide_symbols,
            model: Ghost(Some(m)),
            _s: PhantomData,
        };
        Ok(())
    }
}

impl<S: RansParams> EntropyEncoder<S> {
    /// Locate the table entry and the bypass value of an element with a
    /// non-negative index.
    fn plan(&self, index: i32, value: i32) -> (r: Result<(usize, Option<u32>), EntropyError>)
        requires
            self.wf(),
            self.model() is Some,
            index >= 0,
        ensures
            ({
                let m = self.model()->0;
                match elem_plan(m, index, value) {
                    None => r == Err::<(usize, Option<u32>), EntropyError>(EntropyError::InvalidParams),
                    Some((d, k, bv)) => {
                        &&& r is Ok
                        &&& r->Ok_0.0 == len_sum(m.lengths, d) + k
                        &&& 0 <= d < m.lengths.len()
                        &&& 0 <= k < m.lengths[d]
                        &&& (r->Ok_0.1 is Some <==> bv is Some)
                        &&& bv is Some ==> r->Ok_0.1->0 == bv->0
                    },
                }
            }),
    {
        let ghost m = self.model@->0;
        let dist_len: usize = self.descs.len();
        let ui: usize = if (index as usize) < dist_len {
            index as usize
        } else {
            dist_len - 1
        };
        let desc: DistributionDesc = self.descs[ui];
        proof {
            assert(ui == dist_of(index as int, m.lengths.len() as int));
            lemma_len_sum_entry(m.lengths, ui as int, m.lengths[ui as int] - 1, m.lengths.len() as int);
            assert(desc == self.descs@[ui as int]);
        }
        let adjusted: i32 = match value.checked_add(desc.value_offset) {
            Some(a) => a,
            None => {
                return Err(EntropyError::InvalidParams);
            },
        };
        if adjusted < 0 || adjusted >= desc.bypass_sentinel {
            let bypass: u32 = if adjusted < 0 {
                if adjusted == i32::MIN {
                    return Err(EntropyError::InvalidParams);
                }
                let neg: i32 = -adjusted;
                (2 * (neg as u64) - 1) as u32
            } else {
                (2 * ((adjusted - desc.bypass_sentinel) as u64)) as u32
            };
            Ok((desc.symbol_offset + desc.bypass_sentinel as usize, Some(bypass)))
        } else {
            Ok((desc.symbol_offset + adjusted as usize, None))
        }
    }
}

/// Once an element fails, the earlier elements are not coded: the run
/// from any earlier position is the failed one.
proof fn lemma_batch_run_stuck(m: EntropyModel, indices: Seq<i32>, values: Seq<i32>, i: nat, j: nat)
    requires
        i <= j,
        !batch_run(m, indices, values, j).1,
    ensures
        batch_run(m, indices, values, i) == batch_run(m, indices, values, j),
    decreases j - i,
{
    if i < j {
        lemma_batch_run_stuck(m, indices, values, i + 1, j);
    }
}

/// Valid table entries are valid raw symbols.
pub proof fn lemma_entry_valid(m: EntropyModel, v: RansVariant, d: int, k: int)
    requires
        model_ok(m, v),
        0 <= d < m.lengths.len(),
        0 <= k < m.lengths[d],
    ensures
        valid_symbol(
            pmf_start(m.lengths, m.table, d, k) as nat,
            pmf_entry(m.lengths, m.table, d, k) as nat,
            m.symbol_bits,
            safe_bits(v),
        ),
        0 <= len_sum(m.lengths, d) + k < m.table.len(),
        pmf_start(m.lengths, m.table, d, k) >= 0,
{
    assert(pmf_entry(m.lengths, m.table, d, k) > 0);
    lemma_len_sum_entry(m.lengths, d, k, m.lengths.len() as int);
    lemma_cum_nonneg(m, d, k);
}

/// Cumulative starts of valid distributions are non-negative.
proof fn lemma_cum_nonneg(m: EntropyModel, d: int, k: int)
    requires
        freqs_ok(m.lengths, m.table, m.symbol_bits),
        0 <= d < m.lengths.len(),
        0 <= k <= m.lengths[d],
    ensures
        pmf_start(m.lengths, m.table, d, k) >= 0,
    decreases k,
{
    if k > 0 {
        lemma_cum_nonneg(m, d, k - 1);
        assert(pmf_entry(m.lengths, m.table, d, k - 1) > 0);
    }
}

/// Prepare the RansByte symbol of every table entry.
fn prepare_byte_table(starts: &Vec<Freq>, freqs: &Vec<Freq>, symbol_bits: u32, Ghost(m): Ghost<
    EntropyModel,
>) -> (t: Vec<RansByteEncSymbol>)
    requires
        model_ok(m, RansVariant::RansByte),
        m.symbol_bits == symbol_bits,
        starts@.len() == m.table.len(),
        freqs@.len() == m.table.len(),
        forall|d: int, j: int|
            0 <= d < m.lengths.len() && 0 <= j < m.lengths[d] ==> starts@[len_sum(m.lengths, d) + j]
                == #[trigger] pmf_start(m.lengths, m.table, d, j) && freqs@[len_sum(m.lengths, d)
                + j] == pmf_entry(m.lengths, m.table, d, j),
    ensures
        t@.len() == m.table.len(),
        forall|d: int, k: int|
            0 <= d < m.lengths.len() && 0 <= k < m.lengths[d] ==> t@[len_sum(m.lengths, d) + k]
                == prepare_byte(
                #[trigger] pmf_start(m.lengths, m.table, d, k) as nat,
                pmf_entry(m.lengths, m.table, d, k) as nat,
                m.symbol_bits,
            ),
{
    let mut t: Vec<RansByteEncSymbol> = Vec::with_capacity(starts.len());
    let mut i: usize = 0;
    while i < starts.len()
        invariant
            model_ok(m, RansVariant::RansByte),
            m.symbol_bits == symbol_bits,
            starts@.len() == m.table.len(),
            freqs@.len() == m.table.len(),
            forall|d: int, j: int|
                0 <= d < m.lengths.len() && 0 <= j < m.lengths[d] ==> starts@[len_sum(m.lengths, d)
                    + j] == #[trigger] pmf_start(m.lengths, m.table, d, j) && freqs@[len_sum(
                    m.lengths,
                    d,
                ) + j] == pmf_entry(m.lengths, m.table, d, j),
            i <= starts@.len(),
            t@.len() == i,
            forall|k: int| 0 <= k < i ==> t@[k] == prepare_byte(starts@[k] as nat, freqs@[k] as nat, symbol_bits as nat),
        decreases starts@.len() - i,
    {
        let ghost (d, j) = lemma_entry_position(m, i as int);
        proof {
            lemma_entry_valid(m, RansVariant::RansByte, d, j);
        }
        t.push(RansByteEncSymbol::new(starts[i], freqs[i], symbol_bits));
        i += 1;
    }
    proof {
        assert forall|d: int, k: int|
            0 <= d < m.lengths.len() && 0 <= k < m.lengths[d] implies t@[len_sum(m.lengths, d) + k]
            == prepare_byte(
            #[trigger] pmf_start(m.lengths, m.table, d, k) as nat,
            pmf_entry(m.lengths, m.table, d, k) as nat,
            m.symbol_bits,
        ) by {
            lemma_entry_valid(m, RansVariant::RansByte, d, k);
        }
    }
    t
}

/// Prepare the Rans64 symbol of every table entry.
fn prepare_wide_table(starts: &Vec<Freq>, freqs: &Vec<Freq>, symbol_bits: u32, Ghost(m): Ghost<
    EntropyModel,
>) -> (t: Vec<Rans64EncSymbol>)
    requires
        model_ok(m, RansVariant::Rans64),
        m.symbol_bits == symbol_bits,
        starts@.len() == m.table.len(),
        freqs@.len() == m.table.len(),
        forall|d: int, j: int|
            0 <= d < m.lengths.len() && 0 <= j < m.lengths[d] ==> starts@[len_sum(m.lengths, d) + j]
                == #[trigger] pmf_start(m.lengths, m.table, d, j) && freqs@[len_sum(m.lengths, d)
                + j] == pmf_entry(m.lengths, m.table, d, j),
    ensures
        t@.len() == m.table.len(),
        forall|d: int, k: int|
            0 <= d < m.lengths.len() && 0 <= k < m.lengths[d] ==> t@[len_sum(m.lengths, d) + k]
                == prepare_64(
                #[trigger] pmf_start(m.lengths, m.table, d, k) as nat,
                pmf_entry(m.lengths, m.table, d, k) as nat,
                m.symbol_bits,
            ),
{
    let mut t: Vec<Rans64EncSymbol> = Vec::with_capacity(starts.len());
    let mut i: usize = 0;
    while i < starts.len()
        invariant
            model_ok(m, RansVariant::Rans64),
            m.symbol_bits == symbol_bits,
            starts@.len() == m.table.len(),
            freqs@.len() == m.table.len(),
            forall|d: int, j: int|
                0 <= d < m.lengths.len() && 0 <= j < m.lengths[d] ==> starts@[len_sum(m.lengths, d)
                    + j] == #[trigger] pmf_start(m.lengths, m.table, d, j) && freqs@[len_sum(
                    m.lengths,
                    d,
                ) + j] == pmf_entry(m.lengths, m.table, d, j),
            i <= starts@.len(),
            t@.len() == i,
            forall|k: int| 0 <= k < i ==> t@[k] == prepare_64(starts@[k] as nat, freqs@[k] as nat, symbol_bits as nat),
        decreases starts@.len() - i,
    {
        let ghost (d, j) = lemma_entry_position(m, i as int);
        proof {
            lemma_entry_valid(m, RansVariant::Rans64, d, j);
        }
        t.push(Rans64EncSymbol::new(starts[i], freqs[i], symbol_bits));
        i += 1;
    }
    proof {
        assert forall|d: int, k: int|
            0 <= d < m.lengths.len() && 0 <= k < m.lengths[d] implies t@[len_sum(m.lengths, d) + k]
            == prepare_64(
            #[trigger] pmf_start(m.lengths, m.table, d, k) as nat,
            pmf_entry(m.lengths, m.table, d, k) as nat,
            m.symbol_bits,
        ) by {
            lemma_entry_valid(m, RansVariant::Rans64, d, k);
        }
    }
    t
}

/// Every table position belongs to exactly one distribution entry.
proof fn lemma_entry_position(m: EntropyModel, k: int) -> (r: (int, int))
    requires
        layout_ok(m.lengths, m.offsets, m.table.len()),
        0 <= k < m.table.len(),
    ensures
        is_entry_of(m.lengths, k, r.0, r.1),
{
    lemma_entry_position_from(m.lengths, k, m.lengths.len() as int)
}

proof fn lemma_entry_position_from(lengths: Seq<i32>, k: int, n: int) -> (r: (int, int))
    requires
        0 <= n <= lengths.len(),
        forall|i: int| 0 <= i < lengths.len() ==> #[trigger] lengths[i] > 1,
        0 <= k < len_sum(lengths, n),
    ensures
        is_entry_of(lengths, k, r.0, r.1),
    decreases n,
{
    if n == 0 {
        assert(false);
        (0, 0)
    } else if k >= len_sum(lengths, n - 1) {
        lemma_len_sum_nonneg(lengths, n - 1);
        (n - 1, k - len_sum(lengths, n - 1))
    } else {
        lemma_entry_position_from(lengths, k, n - 1)
    }
}


/// Digit facts: a value has no digits exactly when it is zero, lies below
/// `2^(bypass_bits * count)`, has a non-zero top digit, and every digit is
/// below `2^bypass_bits`.
pub proof fn lemma_bypass_digits_bound(v: nat, bb: nat)
    requires
        bb >= 1,
    ensures
        (bypass_digits(v, bb).len() == 0) == (v == 0),
        v < pow2(bypass_digits(v, bb).len() * bb),
        bypass_digits(v, bb).len() > 0 ==> pow2(((bypass_digits(v, bb).len() - 1) * bb) as nat)
            <= v,
        forall|i: int|
            0 <= i < bypass_digits(v, bb).len() ==> #[trigger] bypass_digits(v, bb)[i] < pow2(bb),
    decreases v,
{
    lemma_pow2_strictly_increases(0, bb);
    lemma2_to64();
    let b: nat = pow2(bb);
    if v > 0 {
        let q: nat = v / b;
        let r: nat = v % b;
        lemma_div_decreases(v as int, b as int);
        lemma_bypass_digits_bound(q, bb);
        lemma_fundamental_div_mod(v as int, b as int);
        let n: nat = bypass_digits(q, bb).len();
        let ds = bypass_digits(v, bb);
        assert(ds == seq![r] + bypass_digits(q, bb));
        lemma_pow2_adds(bb, n * bb);
        assert(bb + n * bb == (n + 1) * bb) by (nonlinear_arith);
        assert(v < pow2((n + 1) * bb)) by (nonlinear_arith)
            requires
                v == b * q + r,
                r < b,
                q < pow2(n * bb),
                pow2(bb + n * bb) == b * pow2(n * bb),
                bb + n * bb == (n + 1) * bb,
        ;
        if n > 0 {
            lemma_pow2_adds(bb, ((n - 1) * bb) as nat);
            assert(bb + (n - 1) * bb == n * bb) by (nonlinear_arith)
                requires
                    n > 0,
            ;
            let e: nat = ((n - 1) * bb) as nat;
            let pe: nat = pow2(e);
            assert(pow2(n * bb) == b * pe);
            assert(b * pe <= v) by (nonlinear_arith)
                requires
                    v == b * q + r,
                    pe <= q,
            ;
        } else {
            assert(q == 0);
            assert(pow2(0) == 1);
        }
        assert forall|i: int| 0 <= i < ds.len() implies #[trigger] ds[i] < b by {
            if i > 0 {
                assert(ds[i] == bypass_digits(q, bb)[i - 1]);
            }
        }
    }
}

/// Split a bypass value into base-`2^bb` digits, least significant first.
fn bypass_digit_vec(bypass_value: u32, bb: u32, mx: u32) -> (digits: Vec<u32>)
    requires
        2 <= bb <= 31,
        mx == bypass_max(bb as nat),
    ensures
        digits@.len() == bypass_digits(bypass_value as nat, bb as nat).len(),
        forall|i: int|
            0 <= i < digits@.len() ==> digits@[i] as nat == #[trigger] bypass_digits(
                bypass_value as nat,
                bb as nat,
            )[i],
{
    let ghost v0: nat = bypass_value as nat;
    let ghost b: nat = pow2(bb as nat);
    proof {
        lemma_pow2_strictly_increases(0, bb as nat);
        lemma_pow2_strictly_increases(bb as nat, 32);
        lemma2_to64();
        assert(mx == low_bits_mask(bb as nat));
    }
    let mut digits: Vec<u32> = Vec::new();
    let mut bv: u32 = bypass_value;
    let ghost mut dn: Seq<nat> = Seq::empty();
    while bv != 0
        invariant
            2 <= bb <= 31,
            b == pow2(bb as nat),
            2 <= b < 0x1_0000_0000,
            mx == low_bits_mask(bb as nat),
            dn + bypass_digits(bv as nat, bb as nat) == bypass_digits(v0, bb as nat),
            digits@.len() == dn.len(),
            forall|i: int| 0 <= i < dn.len() ==> digits@[i] as nat == #[trigger] dn[i],
        decreases bv,
    {
        proof {
            lemma_u32_low_bits_mask_is_mod(bv, bb as nat);
            lemma_u32_shr_is_div(bv, bb);
            lemma_div_decreases(bv as int, b as int);
        }
        let d: u32 = bv & mx;
        let ghost rest = bypass_digits(bv as nat / b, bb as nat);
        proof {
            assert((b as u32) as nat == b);
            assert(d as nat == bv as nat % b);
            assert(bypass_digits(bv as nat, bb as nat) == seq![d as nat] + rest);
            assert(dn.push(d as nat) + rest =~= dn + (seq![d as nat] + rest));
        }
        digits.push(d);
        bv = bv >> bb;
        proof {
            dn = dn.push(d as nat);
        }
    }
    proof {
        assert(dn + Seq::<nat>::empty() =~= dn);
    }
    digits
}

/// The digit count as a remainder modulo the largest digit and the number
/// of full multiples (the "more to follow" markers).
fn split_count(count: u32, mx: u32) -> (r: (u32, u32))
    requires
        mx >= 1,
    ensures
        r.0 == count % mx,
        r.1 == count / mx,
{
    let mut rem: u32 = count;
    let mut prefix: u32 = 0;
    while rem >= mx
        invariant
            mx >= 1,
            rem + prefix * mx == count,
        decreases rem,
    {
        assert(prefix + 1 <= count) by (nonlinear_arith)
            requires
                rem + prefix * mx == count,
                rem >= mx,
                mx >= 1,
        ;
        rem -= mx;
        prefix += 1;
        proof {
            assert(rem + prefix * mx == count) by (nonlinear_arith)
                requires
                    rem + mx + (prefix - 1) * mx == count,
            ;
        }
    }
    proof {
        lemma_fundamental_div_mod_converse(count as int, mx as int, prefix as int, rem as int);
    }
    (rem, prefix)
}

/// `e` holds the result of applying `ops` to a RansByte encoder that was in
/// state `x0` with output `out0`.
pub open spec fn byte_coded(e: RansByteEncoder, x0: nat, out0: Seq<u8>, ops: Seq<RawOp>) -> bool {
    &&& e.spec_state() == byte_encode_all(x0, ops).1
    &&& e.output() == byte_encode_all(x0, ops).0 + out0
}

/// Applying one more operation to a RansByte encoder.
pub(crate) proof fn lemma_byte_coded_push(
    e0: RansByteEncoder,
    e1: RansByteEncoder,
    x0: nat,
    out0: Seq<u8>,
    ops: Seq<RawOp>,
    op: RawOp,
)
    requires
        byte_coded(e0, x0, out0, ops),
        e1.spec_state() == byte_apply(e0.spec_state(), op).1,
        e1.output() == byte_apply(e0.spec_state(), op).0.reverse() + e0.output(),
    ensures
        byte_coded(e1, x0, out0, ops.push(op)),
{
    assert(ops.push(op).drop_last() =~= ops);
    let prev = byte_encode_all(x0, ops);
    let step = byte_apply(prev.1, op);
    assert(step.0.reverse() + (prev.0 + out0) =~= (step.0.reverse() + prev.0) + out0);
}

/// Put `value` with frequency one at `bits` (a bypass digit or count).
fn byte_put_unit(
    encoder: &mut RansByteEncoder,
    value: u32,
    bits: u32,
    Ghost(x0): Ghost<nat>,
    Ghost(out0): Ghost<Seq<u8>>,
    Ghost(ops): Ghost<Seq<RawOp>>,
)
    requires
        old(encoder).wf(),
        byte_coded(*old(encoder), x0, out0, ops),
        1 <= bits <= 30,
        value < pow2(bits as nat),
    ensures
        final(encoder).wf(),
        byte_coded(*final(encoder), x0, out0, ops.push(unit_op(value as nat, bits as nat))),
{
    let ghost e0 = *encoder;
    encoder.put_raw(value, 1, bits);
    proof {
        lemma_byte_coded_push(e0, *encoder, x0, out0, ops, unit_op(value as nat, bits as nat));
    }
}

impl EntropyEncoder<RansByte> {
    /// Code a bypass value: its digits (most significant first), then the
    /// digit count as a remainder and "more to follow" markers.
    fn encode_bypass_value(
        &self,
        encoder: &mut RansByteEncoder,
        bypass_value: u32,
        Ghost(x0): Ghost<nat>,
        Ghost(out0): Ghost<Seq<u8>>,
        Ghost(pre): Ghost<Seq<RawOp>>,
    )
        requires
            self.wf(),
            self.model() is Some,
            old(encoder).wf(),
            byte_coded(*old(encoder), x0, out0, pre),
        ensures
            final(encoder).wf(),
            byte_coded(
                *final(encoder),
                x0,
                out0,
                pre + bypass_ops(bypass_value as nat, self.model()->0.bypass_bits),
            ),
    {
        let ghost m = self.model@->0;
        let bb: u32 = self.bypass_bits;
        let mx: u32 = self.bypass_max_value;
        let ghost ds = bypass_digits(bypass_value as nat, bb as nat);
        proof {
            lemma_bypass_digits_bound(bypass_value as nat, bb as nat);
            lemma_pow2_strictly_increases(0, bb as nat);
            lemma2_to64();
            if ds.len() > 16 {
                assert((ds.len() - 1) * bb >= 32) by (nonlinear_arith)
                    requires
                        ds.len() > 16,
                        bb >= 2,
                ;
                if (ds.len() - 1) * bb > 32 {
                    lemma_pow2_strictly_increases(32, ((ds.len() - 1) * bb) as nat);
                }
            }
        }
        let digits: Vec<u32> = bypass_digit_vec(bypass_value, bb, mx);
        let c: usize = digits.len();
        let ghost mut done: Seq<RawOp> = Seq::empty();
        let mut i: usize = c;
        while i > 0
            invariant
                self.wf(),
                self.model@ == Some(m),
                bb == m.bypass_bits,
                2 <= bb <= 30,
                c == ds.len(),
                c == digits@.len(),
                i <= c,
                forall|j: int| 0 <= j < c ==> digits@[j] as nat == #[trigger] ds[j],
                forall|j: int| 0 <= j < c ==> #[trigger] ds[j] < pow2(bb as nat),
                done == Seq::new((c - i) as nat, |j: int| unit_op(ds[c - 1 - j], bb as nat)),
                encoder.wf(),
                byte_coded(*encoder, x0, out0, pre + done),
            decreases i,
        {
            i -= 1;
            let d: u32 = digits[i];
            proof {
                assert(d as nat == ds[i as int]);
            }
            byte_put_unit(encoder, d, bb, Ghost(x0), Ghost(out0), Ghost(pre + done));
            proof {
                assert((pre + done).push(unit_op(d as nat, bb as nat)) =~= pre + done.push(
                    unit_op(d as nat, bb as nat),
                ));
                done = done.push(unit_op(d as nat, bb as nat));
                assert(done =~= Seq::new((c - i) as nat, |j: int| unit_op(ds[c - 1 - j], bb as nat)));
            }
        }
        let (rem, prefix) = split_count(c as u32, mx);
        proof {
            lemma_mod_bound(c as int, mx as int);
        }
        byte_put_unit(encoder, rem, bb, Ghost(x0), Ghost(out0), Ghost(pre + done));
        proof {
            assert((pre + done).push(unit_op(rem as nat, bb as nat)) =~= pre + done.push(
                unit_op(rem as nat, bb as nat),
            ));
            done = done.push(unit_op(rem as nat, bb as nat));
        }
        let ghost head = done;
        let mut k: u32 = 0;
        while k < prefix
            invariant
                self.wf(),
                self.model@ == Some(m),
                bb == m.bypass_bits,
                2 <= bb <= 30,
                mx == bypass_max(bb as nat),
                mx < pow2(bb as nat),
                k <= prefix,
                done == head + Seq::new(k as nat, |j: int| unit_op(mx as nat, bb as nat)),
                encoder.wf(),
                byte_coded(*encoder, x0, out0, pre + done),
            decreases prefix - k,
        {
            byte_put_unit(encoder, mx, bb, Ghost(x0), Ghost(out0), Ghost(pre + done));
            proof {
                assert((pre + done).push(unit_op(mx as nat, bb as nat)) =~= pre + done.push(
                    unit_op(mx as nat, bb as nat),
                ));
                done = done.push(unit_op(mx as nat, bb as nat));
                assert(done =~= head + Seq::new((k + 1) as nat, |j: int| unit_op(mx as nat, bb as nat)));
            }
            k += 1;
        }
        proof {
            assert(done =~= bypass_ops(bypass_value as nat, bb as nat));
        }
    }

    /// Encode a batch onto an existing raw encoder (persistent streaming):
    /// elements are coded from the last to the first; the encoder is not
    /// flushed. On an error the elements after the failing one stay coded.
    pub fn encode_batch(&self, indices: &[i32], values: &[i32], encoder: &mut RansByteEncoder) -> (r:
        Result<(), EntropyError>)
        requires
            self.wf(),
            old(encoder).wf(),
        ensures
            final(encoder).wf(),
            r == batch_result(self.model(), indices@, values@).0,
            byte_coded(
                *final(encoder),
                old(encoder).spec_state(),
                old(encoder).output(),
                batch_result(self.model(), indices@, values@).1,
            ),
    {
        proof {
            assert(byte_encode_all(encoder.spec_state(), Seq::empty()).0 + encoder.output()
                =~= encoder.output());
        }
        if self.symbol_bits == 0 {
            return Err(EntropyError::InvalidState);
        }
        if indices.len() != values.len() {
            return Err(EntropyError::InvalidParams);
        }
        let ghost m = self.model@->0;
        let ghost x0 = encoder.spec_state();
        let ghost out0 = encoder.output();
        let ghost mut done: Seq<RawOp> = Seq::empty();
        let mut idx: usize = indices.len();
        while idx > 0
            invariant
                self.wf(),
                self.model@ == Some(m),
                indices@.len() == values@.len(),
                idx <= indices@.len(),
                batch_run(m, indices@, values@, idx as nat) == (done, true),
                x0 == old(encoder).spec_state(),
                out0 == old(encoder).output(),
                encoder.wf(),
                byte_coded(*encoder, x0, out0, done),
            decreases idx,
        {
            idx -= 1;
            let index: i32 = indices[idx];
            let value: i32 = values[idx];
            if index >= 0 {
                let (k, bypass) = match self.plan(index, value) {
                    Ok(p) => p,
                    Err(e) => {
                        proof {
                            assert(elem_ops(m, index, value) is None);
                            assert(batch_run(m, indices@, values@, idx as nat) == (done, false));
                            lemma_batch_run_stuck(m, indices@, values@, 0, idx as nat);
                        }
                        return Err(e);
                    },
                };
                let ghost (d, j, bv) = elem_plan(m, index, value)->0;
                let ghost pre = done;
                match bypass {
                    Some(b) => {
                        self.encode_bypass_value(encoder, b, Ghost(x0), Ghost(out0), Ghost(done));
                        proof {
                            done = done + bypass_ops(b as nat, m.bypass_bits);
                        }
                    },
                    None => {},
                }
                proof {
                    lemma_entry_valid(m, RansVariant::RansByte, d, j);
                }
                let sym: &RansByteEncSymbol = &self.byte_symbols[k];
                proof {
                    let st = pmf_start(m.lengths, m.table, d, j) as nat;
                    let fr = pmf_entry(m.lengths, m.table, d, j) as nat;
                    assert(*sym == prepare_byte(st, fr, m.symbol_bits));
                    assert(valid_symbol(st, fr, m.symbol_bits, 30) && *sym == prepare_byte(
                        st,
                        fr,
                        m.symbol_bits,
                    ));
                }
                let ghost e0 = *encoder;
                encoder.put(sym);
                proof {
                    lemma_byte_coded_push(e0, *encoder, x0, out0, done, sym_op(m, d, j));
                    done = done.push(sym_op(m, d, j));
                    let e = match bv {
                        Some(b) => bypass_ops(b, m.bypass_bits),
                        None => Seq::<RawOp>::empty(),
                    } + seq![sym_op(m, d, j)];
                    assert(elem_ops(m, index, value) == Some(e));
                    assert(done =~= pre + e);
                }
            } else {
                proof {
                    assert(done + Seq::<RawOp>::empty() =~= done);
                }
            }
        }
        Ok(())
    }

    /// One-shot encode: code the batch on a fresh encoder, flush, and append
    /// the message bytes to `buffer`. On an error `buffer` is unchanged.
    pub fn encode(&self, indices: &[i32], values: &[i32], buffer: &mut Vec<u8>) -> (r: Result<
        (),
        EntropyError,
    >)
        requires
            self.wf(),
        ensures
            match encode_bytes(self.model(), indices@, values@, RansVariant::RansByte) {
                Ok(bytes) => r is Ok && final(buffer)@ == old(buffer)@ + bytes,
                Err(e) => r == Err::<(), EntropyError>(e) && final(buffer)@ == old(buffer)@,
            },
    {
        let mut encoder: RansByteEncoder = RansByteEncoder::new(VecSink::new(4096));
        self.encode_batch(indices, values, &mut encoder)?;
        encoder.flush();
        let units: Vec<u8> = encoder.into_sink().encoded();
        let mut bytes: Vec<u8> = RansByte::units_to_bytes(units);
        proof {
            let ops = batch_result(self.model(), indices@, values@).1;
            assert(byte_encode_all(0x80_0000, ops).0 + Seq::<u8>::empty() =~= byte_encode_all(
                0x80_0000,
                ops,
            ).0);
            assert(bytes@ == byte_message(ops));
        }
        buffer.append(&mut bytes);
        Ok(())
    }
}


/// `e` holds the result of applying `ops` to a Rans64 encoder that was in
/// state `x0` with output `out0`.
pub open spec fn r64_coded(e: Rans64Encoder, x0: nat, out0: Seq<u32>, ops: Seq<RawOp>) -> bool {
    &&& e.spec_state() == r64_encode_all(x0, ops).1
    &&& e.output() == r64_encode_all(x0, ops).0 + out0
}

/// Applying one more operation to a Rans64 encoder.
pub(crate) proof fn lemma_r64_coded_push(
    e0: Rans64Encoder,
    e1: Rans64Encoder,
    x0: nat,
    out0: Seq<u32>,
    ops: Seq<RawOp>,
    op: RawOp,
)
    requires
        r64_coded(e0, x0, out0, ops),
        e1.spec_state() == r64_apply(e0.spec_state(), op).1,
        e1.output() == r64_apply(e0.spec_state(), op).0.reverse() + e0.output(),
    ensures
        r64_coded(e1, x0, out0, ops.push(op)),
{
    assert(ops.push(op).drop_last() =~= ops);
    let prev = r64_encode_all(x0, ops);
    let step = r64_apply(prev.1, op);
    assert(step.0.reverse() + (prev.0 + out0) =~= (step.0.reverse() + prev.0) + out0);
}

/// Put `value` with frequency one at `bits` (a bypass digit or count).
fn r64_put_unit(
    encoder: &mut Rans64Encoder,
    value: u32,
    bits: u32,
    Ghost(x0): Ghost<nat>,
    Ghost(out0): Ghost<Seq<u32>>,
    Ghost(ops): Ghost<Seq<RawOp>>,
)
    requires
        old(encoder).wf(),
        r64_coded(*old(encoder), x0, out0, ops),
        1 <= bits <= 31,
        value < pow2(bits as nat),
    ensures
        final(encoder).wf(),
        r64_coded(*final(encoder), x0, out0, ops.push(unit_op(value as nat, bits as nat))),
{
    let ghost e0 = *encoder;
    encoder.put_raw(value, 1, bits);
    proof {
        lemma_r64_coded_push(e0, *encoder, x0, out0, ops, unit_op(value as nat, bits as nat));
    }
}

impl EntropyEncoder<Rans64> {
    /// Code a bypass value: its digits (most significant first), then the
    /// digit count as a remainder and "more to follow" markers.
    fn encode_bypass_value(
        &self,
        encoder: &mut Rans64Encoder,
        bypass_value: u32,
        Ghost(x0): Ghost<nat>,
        Ghost(out0): Ghost<Seq<u32>>,
        Ghost(pre): Ghost<Seq<RawOp>>,
    )
        requires
            self.wf(),
            self.model() is Some,
            old(encoder).wf(),
            r64_coded(*old(encoder), x0, out0, pre),
        ensures
            final(encoder).wf(),
            r64_coded(
                *final(encoder),
                x0,
                out0,
                pre + bypass_ops(bypass_value as nat, self.model()->0.bypass_bits),
            ),
    {
        let ghost m = self.model@->0;
        let bb: u32 = self.bypass_bits;
        let mx: u32 = self.bypass_max_value;
        let ghost ds = bypass_digits(bypass_value as nat, bb as nat);
        proof {
            lemma_bypass_digits_bound(bypass_value as nat, bb as nat);
            lemma_pow2_strictly_increases(0, bb as nat);
            lemma2_to64();
            if ds.len() > 16 {
                assert((ds.len() - 1) * bb >= 32) by (nonlinear_arith)
                    requires
                        ds.len() > 16,
                        bb >= 2,
                ;
                if (ds.len() - 1) * bb > 32 {
                    lemma_pow2_strictly_increases(32, ((ds.len() - 1) * bb) as nat);
                }
            }
        }
        let digits: Vec<u32> = bypass_digit_vec(bypass_value, bb, mx);
        let c: usize = digits.len();
        let ghost mut done: Seq<RawOp> = Seq::empty();
        let mut i: usize = c;
        while i > 0
            invariant
                self.wf(),
                self.model@ == Some(m),
                bb == m.bypass_bits,
                2 <= bb <= 31,
                c == ds.len(),
                c == digits@.len(),
                i <= c,
                forall|j: int| 0 <= j < c ==> digits@[j] as nat == #[trigger] ds[j],
                forall|j: int| 0 <= j < c ==> #[trigger] ds[j] < pow2(bb as nat),
                done == Seq::new((c - i) as nat, |j: int| unit_op(ds[c - 1 - j], bb as nat)),
                encoder.wf(),
                r64_coded(*encoder, x0, out0, pre + done),
            decreases i,
        {
            i -= 1;
            let d: u32 = digits[i];
            proof {
                assert(d as nat == ds[i as int]);
            }
            r64_put_unit(encoder, d, bb, Ghost(x0), Ghost(out0), Ghost(pre + done));
            proof {
                assert((pre + done).push(unit_op(d as nat, bb as nat)) =~= pre + done.push(
                    unit_op(d as nat, bb as nat),
                ));
                done = done.push(unit_op(d as nat, bb as nat));
                assert(done =~= Seq::new((c - i) as nat, |j: int| unit_op(ds[c - 1 - j], bb as nat)));
            }
        }
        let (rem, prefix) = split_count(c as u32, mx);
        proof {
            lemma_mod_bound(c as int, mx as int);
        }
        r64_put_unit(encoder, rem, bb, Ghost(x0), Ghost(out0), Ghost(pre + done));
        proof {
            assert((pre + done).push(unit_op(rem as nat, bb as nat)) =~= pre + done.push(
                unit_op(rem as nat, bb as nat),
            ));
            done = done.push(unit_op(rem as nat, bb as nat));
        }
        let ghost head = done;
        let mut k: u32 = 0;
        while k < prefix
            invariant
                self.wf(),
                self.model@ == Some(m),
                bb == m.bypass_bits,
                2 <= bb <= 31,
                mx == bypass_max(bb as nat),
                mx < pow2(bb as nat),
                k <= prefix,
                done == head + Seq::new(k as nat, |j: int| unit_op(mx as nat, bb as nat)),
                encoder.wf(),
                r64_coded(*encoder, x0, out0, pre + done),
            decreases prefix - k,
        {
            r64_put_unit(encoder, mx, bb, Ghost(x0), Ghost(out0), Ghost(pre + done));
            proof {
                assert((pre + done).push(unit_op(mx as nat, bb as nat)) =~= pre + done.push(
                    unit_op(mx as nat, bb as nat),
                ));
                done = done.push(unit_op(mx as nat, bb as nat));
                assert(done =~= head + Seq::new((k + 1) as nat, |j: int| unit_op(mx as nat, bb as nat)));
            }
            k += 1;
        }
        proof {
            assert(done =~= bypass_ops(bypass_value as nat, bb as nat));
        }
    }

    /// Encode a batch onto an existing raw encoder (persistent streaming):
    /// elements are coded from the last to the first; the encoder is not
    /// flushed. On an error the elements after the failing one stay coded.
    pub fn encode_batch(&self, indices: &[i32], values: &[i32], encoder: &mut Rans64Encoder) -> (r:
        Result<(), EntropyError>)
        requires
            self.wf(),
            old(encoder).wf(),
        ensures
            final(encoder).wf(),
            r == batch_result(self.model(), indices@, values@).0,
            r64_coded(
                *final(encoder),
                old(encoder).spec_state(),
                old(encoder).output(),
                batch_result(self.model(), indices@, values@).1,
            ),
    {
        proof {
            assert(r64_encode_all(encoder.spec_state(), Seq::empty()).0 + encoder.output()
                =~= encoder.output());
        }
        if self.symbol_bits == 0 {
            return Err(EntropyError::InvalidState);
        }
        if indices.len() != values.len() {
            return Err(EntropyError::InvalidParams);
        }
        let ghost m = self.model@->0;
        let ghost x0 = encoder.spec_state();
        let ghost out0 = encoder.output();
        let ghost mut done: Seq<RawOp> = Seq::empty();
        let mut idx: usize = indices.len();
        while idx > 0
            invariant
                self.wf(),
                self.model@ == Some(m),
                indices@.len() == values@.len(),
                idx <= indices@.len(),
                batch_run(m, indices@, values@, idx as nat) == (done, true),
                x0 == old(encoder).spec_state(),
                out0 == old(encoder).output(),
                encoder.wf(),
                r64_coded(*encoder, x0, out0, done),
            decreases idx,
        {
            idx -= 1;
            let index: i32 = indices[idx];
            let value: i32 = values[idx];
            if index >= 0 {
                let (k, bypass) = match self.plan(index, value) {
                    Ok(p) => p,
                    Err(e) => {
                        proof {
                            assert(elem_ops(m, index, value) is None);
                            assert(batch_run(m, indices@, values@, idx as nat) == (done, false));
                            lemma_batch_run_stuck(m, indices@, values@, 0, idx as nat);
                        }
                        return Err(e);
                    },
                };
                let ghost (d, j, bv) = elem_plan(m, index, value)->0;
                let ghost pre = done;
                match bypass {
                    Some(b) => {
                        self.encode_bypass_value(encoder, b, Ghost(x0), Ghost(out0), Ghost(done));
                        proof {
                            done = done + bypass_ops(b as nat, m.bypass_bits);
                        }
                    },
                    None => {},
                }
                proof {
                    lemma_entry_valid(m, RansVariant::Rans64, d, j);
                }
                let sym: &Rans64EncSymbol = &self.wide_symbols[k];
                proof {
                    let st = pmf_start(m.lengths, m.table, d, j) as nat;
                    let fr = pmf_entry(m.lengths, m.table, d, j) as nat;
                    assert(*sym == prepare_64(st, fr, m.symbol_bits));
                    assert(valid_symbol(st, fr, m.symbol_bits, 31) && *sym == prepare_64(
                        st,
                        fr,
                        m.symbol_bits,
                    ));
                }
                let ghost e0 = *encoder;
                encoder.put(sym);
                proof {
                    lemma_r64_coded_push(e0, *encoder, x0, out0, done, sym_op(m, d, j));
                    done = done.push(sym_op(m, d, j));
                    let e = match bv {
                        Some(b) => bypass_ops(b, m.bypass_bits),
                        None => Seq::<RawOp>::empty(),
                    } + seq![sym_op(m, d, j)];
                    assert(elem_ops(m, index, value) == Some(e));
                    assert(done =~= pre + e);
                }
            } else {
                proof {
                    assert(done + Seq::<RawOp>::empty() =~= done);
                }
            }
        }
        Ok(())
    }

    /// One-shot encode: code the batch on a fresh encoder, flush, and append
    /// the message bytes to `buffer`. On an error `buffer` is unchanged.
    pub fn encode(&self, indices: &[i32], values: &[i32], buffer: &mut Vec<u8>) -> (r: Result<
        (),
        EntropyError,
    >)
        requires
            self.wf(),
        ensures
            match encode_bytes(self.model(), indices@, values@, RansVariant::Rans64) {
                Ok(bytes) => r is Ok && final(buffer)@ == old(buffer)@ + bytes,
                Err(e) => r == Err::<(), EntropyError>(e) && final(buffer)@ == old(buffer)@,
            },
    {
        let mut encoder: Rans64Encoder = Rans64Encoder::new(VecSink::new(4096));
        self.encode_batch(indices, values, &mut encoder)?;
        encoder.flush();
        let units: Vec<u32> = encoder.into_sink().encoded();
        let mut bytes: Vec<u8> = Rans64::units_to_bytes(units);
        proof {
            let ops = batch_result(self.model(), indices@, values@).1;
            assert(r64_encode_all(0x8000_0000, ops).0 + Seq::<u32>::empty() =~= r64_encode_all(
                0x8000_0000,
                ops,
            ).0);
            assert(bytes@ == r64_message(ops));
        }
        buffer.append(&mut bytes);
        Ok(())
    }
}


/// A raw decoder's advance on fixed data: from `(state, start, freq,
/// scale_bits, position)` to the new state and position, `None` when the
/// data runs out.
pub open spec fn byte_adv(data: Seq<u8>) -> spec_fn(nat, nat, nat, nat, nat) -> Option<(nat, nat)> {
    |x: nat, start: nat, freq: nat, bits: nat, pos: nat| byte_advance(x, start, freq, bits, data, pos)
}

/// The Rans64 advance on fixed data.
pub open spec fn r64_adv(data: Seq<u32>) -> spec_fn(nat, nat, nat, nat, nat) -> Option<(nat, nat)> {
    |x: nat, start: nat, freq: nat, bits: nat, pos: nat| r64_advance(x, start, freq, bits, data, pos)
}

/// The entry of distribution `d` whose slot holds `cum`: the last entry at
/// or below `k` whose cumulative start is at most `cum` (entry 0 otherwise).
pub open spec fn find_entry(m: EntropyModel, d: int, cum: nat, k: int) -> int
    decreases k,
{
    if k <= 0 {
        0
    } else if pmf_start(m.lengths, m.table, d, k) <= cum {
        k
    } else {
        find_entry(m, d, cum, k - 1)
    }
}

/// Read a value coded with frequency one at `bits`: the slot is the value.
pub open spec fn unit_read(
    adv: spec_fn(nat, nat, nat, nat, nat) -> Option<(nat, nat)>,
    bits: nat,
    x: nat,
    pos: nat,
) -> Option<(nat, nat, nat)> {
    let v = x % pow2(bits);
    match adv(x, v, 1, bits, pos) {
        Some((x2, p2)) => Some((v, x2, p2)),
        None => None,
    }
}

/// Decode a bypass digit count from `total`: largest digits add up and mean
/// "more to follow"; any other digit ends the count. `None` when the data
/// runs out or the count passes 32 before its end.
pub open spec fn dec_count(
    adv: spec_fn(nat, nat, nat, nat, nat) -> Option<(nat, nat)>,
    bits: nat,
    x: nat,
    pos: nat,
    total: nat,
) -> Option<(nat, nat, nat)>
    decreases 33 - total,
{
    if bits == 0 {
        None
    } else {
        match unit_read(adv, bits, x, pos) {
            None => None,
            Some((v, x2, p2)) => if v != bypass_max(bits) {
                Some((total + v, x2, p2))
            } else if total + v > 32 {
                None
            } else {
                proof {
                    lemma_pow2_strictly_increases(0, bits);
                    lemma2_to64();
                }
                dec_count(adv, bits, x2, p2, total + v)
            },
        }
    }
}

/// A decoded digit count stays below `33 + 2^bits`.
pub proof fn lemma_dec_count_bound(
    adv: spec_fn(nat, nat, nat, nat, nat) -> Option<(nat, nat)>,
    bits: nat,
    x: nat,
    pos: nat,
    total: nat,
)
    requires
        total <= 32,
    ensures
        dec_count(adv, bits, x, pos, total) matches Some((c, _, _)) ==> c < 33 + pow2(bits),
    decreases 33 - total,
{
    if bits > 0 {
        lemma_pow2_strictly_increases(0, bits);
        lemma2_to64();
        match unit_read(adv, bits, x, pos) {
            None => {},
            Some((v, x2, p2)) => {
                lemma_pow2_pos(bits);
                if v == bypass_max(bits) && total + v <= 32 {
                    lemma_dec_count_bound(adv, bits, x2, p2, total + v);
                }
            },
        }
    }
}

/// Decode `c` digits, least significant first, into their value.
pub open spec fn dec_digits(
    adv: spec_fn(nat, nat, nat, nat, nat) -> Option<(nat, nat)>,
    bits: nat,
    x: nat,
    pos: nat,
    c: nat,
) -> Option<(nat, nat, nat)>
    decreases c,
{
    if c == 0 {
        Some((0, x, pos))
    } else {
        match unit_read(adv, bits, x, pos) {
            None => None,
            Some((v, x2, p2)) => match dec_digits(adv, bits, x2, p2, (c - 1) as nat) {
                None => None,
                Some((r, x3, p3)) => Some((v + pow2(bits) * r, x3, p3)),
            },
        }
    }
}

/// The adjusted value a bypass value stands for: odd codes are negative,
/// even codes lie at or above the sentinel.
pub open spec fn bypass_symbol(bv: nat, sentinel: int) -> int {
    if bv % 2 == 1 {
        -((bv / 2) as int) - 1
    } else {
        (bv / 2) as int + sentinel
    }
}

/// Bypass coding of out-of-range values: an adjusted value `a` at or above
/// the sentinel `s` is coded as the even number `2 * (a - s)`, a negative
/// one as the odd number `2 * (-a) - 1`; the decoder reads an even code
/// `2k` as `s + k` and an odd code `2k + 1` as `-k - 1`, so every
/// out-of-range value comes back.
pub proof fn lemma_bypass_codes(a: int, s: int, k: nat)
    ensures
        a >= s && s >= 0 ==> bypass_value(a, s) == 2 * (a - s),
        a < 0 ==> bypass_value(a, s) == 2 * (-a) - 1,
        bypass_symbol(2 * k, s) == s + k,
        bypass_symbol(2 * k + 1, s) == -(k as int) - 1,
        (a < 0 || (a >= s && s >= 0)) ==> bypass_symbol(bypass_value(a, s), s) == a,
{
    assert((2 * k) % 2 == 0 && (2 * k) / 2 == k) by (nonlinear_arith);
    assert((2 * k + 1) % 2 == 1 && (2 * k + 1) / 2 == k) by (nonlinear_arith);
    if a < 0 {
        let j = (-a - 1) as nat;
        assert(2 * (-a) - 1 == 2 * j + 1);
        assert((2 * j + 1) % 2 == 1 && (2 * j + 1) / 2 == j) by (nonlinear_arith);
    } else if a >= s && s >= 0 {
        let j = (a - s) as nat;
        assert((2 * j) % 2 == 0 && (2 * j) / 2 == j) by (nonlinear_arith);
    }
}

/// Where an element's value goes, in terms of its inputs: with
/// `d = min(index, D - 1)`, `s = lengths[d] - 1` and `a = value + offsets[d]`,
/// an in-range `a` (`0 <= a < s`) is coded with entry `a` and no bypass; an
/// `a` at or above `s` with entry `s` and bypass value `2 * (a - s)`; a
/// negative `a` (above `i32::MIN`) with entry `s` and bypass value
/// `-2 * a - 1`.
pub proof fn lemma_elem_plan_values(m: EntropyModel, v: RansVariant, index: i32, value: i32)
    requires
        model_ok(m, v),
        index >= 0,
    ensures
        ({
            let d = if (index as int) < m.lengths.len() { index as int } else { m.lengths.len() - 1 };
            let s = m.lengths[d] - 1;
            let a = value + m.offsets[d];
            &&& (0 <= a < s) ==> elem_plan(m, index, value) == Some((d, a, None::<nat>))
            &&& (s <= a <= i32::MAX) ==> elem_plan(m, index, value) == Some((d, s, Some((2 * (a - s)) as nat)))
            &&& (i32::MIN < a < 0) ==> elem_plan(m, index, value) == Some((d, s, Some((-2 * a - 1) as nat)))
        }),
{
    let d = if (index as int) < m.lengths.len() { index as int } else { m.lengths.len() - 1 };
    assert(m.lengths.len() > 0);
    assert(0 <= d < m.lengths.len());
    assert(m.lengths[d] > 1);
    let s = m.lengths[d] - 1;
    let a = value + m.offsets[d];
    lemma_bypass_codes(a, s, 0);
}

/// A 32-bit signed value.
pub open spec fn fits_i32(v: int) -> bool {
    i32::MIN <= v <= i32::MAX
}

/// Decode the bypass payload that follows the sentinel: the count, then
/// that many digits (whose bits must stay below 64), taken modulo 2^32.
pub open spec fn dec_bypass(
    adv: spec_fn(nat, nat, nat, nat, nat) -> Option<(nat, nat)>,
    bits: nat,
    x: nat,
    pos: nat,
) -> Option<(nat, nat, nat)> {
    match dec_count(adv, bits, x, pos, 0) {
        None => None,
        Some((c, x2, p2)) => if c * bits >= 64 {
            None
        } else {
            match dec_digits(adv, bits, x2, p2, c) {
                None => None,
                Some((v, x3, p3)) => Some((v % 0x1_0000_0000, x3, p3)),
            }
        },
    }
}

/// Decode one element from state `x` at `pos`: a negative index gives 0
/// and reads nothing; otherwise the entry whose slot holds the state's low
/// `symbol_bits` bits, and for the sentinel the bypass payload. `None`
/// when the stream is truncated or its values do not fit.
pub open spec fn dec_elem(
    m: EntropyModel,
    adv: spec_fn(nat, nat, nat, nat, nat) -> Option<(nat, nat)>,
    index: i32,
    x: nat,
    pos: nat,
) -> Option<(i32, nat, nat)> {
    if index < 0 {
        Some((0i32, x, pos))
    } else {
        let d = dist_of(index as int, m.lengths.len() as int);
        let sentinel = m.lengths[d] - 1;
        let k = find_entry(m, d, x % pow2(m.symbol_bits), sentinel);
        match adv(
            x,
            pmf_start(m.lengths, m.table, d, k) as nat,
            pmf_entry(m.lengths, m.table, d, k) as nat,
            m.symbol_bits,
            pos,
        ) {
            None => None,
            Some((x1, p1)) => {
                let sym: Option<(int, nat, nat)> = if k == sentinel {
                    match dec_bypass(adv, m.bypass_bits, x1, p1) {
                        None => None,
                        Some((bv, x2, p2)) => if fits_i32(bypass_symbol(bv, sentinel)) {
                            Some((bypass_symbol(bv, sentinel), x2, p2))
                        } else {
                            None
                        },
                    }
                } else {
                    Some((k, x1, p1))
                };
                match sym {
                    None => None,
                    Some((s, x2, p2)) => if fits_i32(s - m.offsets[d]) {
                        Some(((s - m.offsets[d]) as i32, x2, p2))
                    } else {
                        None
                    },
                }
            },
        }
    }
}

/// Decode the elements of `indices` in order: the values decoded and the
/// final state and position, `None` at the first element that fails.
pub open spec fn dec_run(
    m: EntropyModel,
    adv: spec_fn(nat, nat, nat, nat, nat) -> Option<(nat, nat)>,
    indices: Seq<i32>,
    x: nat,
    pos: nat,
) -> (Seq<i32>, Option<(nat, nat)>)
    decreases indices.len(),
{
    if indices.len() == 0 {
        (Seq::empty(), Some((x, pos)))
    } else {
        match dec_elem(m, adv, indices[0], x, pos) {
            None => (Seq::empty(), None),
            Some((v, x2, p2)) => {
                let r = dec_run(m, adv, indices.drop_first(), x2, p2);
                (seq![v] + r.0, r.1)
            },
        }
    }
}

/// Cumulative starts increase strictly within a valid distribution.
pub proof fn lemma_start_strict(m: EntropyModel, d: int, i: int, j: int)
    requires
        freqs_ok(m.lengths, m.table, m.symbol_bits),
        0 <= d < m.lengths.len(),
        0 <= i < j <= m.lengths[d],
    ensures
        pmf_start(m.lengths, m.table, d, i) < pmf_start(m.lengths, m.table, d, j),
    decreases j - i,
{
    assert(pmf_entry(m.lengths, m.table, d, j - 1) > 0);
    if i < j - 1 {
        lemma_start_strict(m, d, i, j - 1);
    }
}

/// The entry found for `cum` is the one whose start is at most `cum` while
/// the next start (if any) lies above it.
proof fn lemma_find_entry(m: EntropyModel, d: int, cum: nat, k: int, t: int)
    requires
        freqs_ok(m.lengths, m.table, m.symbol_bits),
        0 <= d < m.lengths.len(),
        0 <= k <= t < m.lengths[d],
        k == 0 || pmf_start(m.lengths, m.table, d, k) <= cum,
        k == t || pmf_start(m.lengths, m.table, d, k + 1) > cum,
    ensures
        find_entry(m, d, cum, t) == k,
    decreases t,
{
    if t > k {
        if k + 1 < t {
            lemma_start_strict(m, d, k + 1, t);
        }
        lemma_find_entry(m, d, cum, k, t - 1);
    }
}

/// The found entry's start is at most `cum`, and the entry is in range.
proof fn lemma_find_entry_le(m: EntropyModel, d: int, cum: nat, t: int)
    requires
        freqs_ok(m.lengths, m.table, m.symbol_bits),
        0 <= d < m.lengths.len(),
        0 <= t < m.lengths[d],
    ensures
        0 <= find_entry(m, d, cum, t) <= t,
        pmf_start(m.lengths, m.table, d, find_entry(m, d, cum, t)) <= cum,
    decreases t,
{
    if t > 0 && pmf_start(m.lengths, m.table, d, t) > cum {
        lemma_find_entry_le(m, d, cum, t - 1);
    }
}

/// The entropy decoder: distributions and their cumulative tables (one
/// extra entry per distribution holding the total), for the variant `S`.
pub struct EntropyDecoder<S: RansParams> {
    symbol_bits: u32,
    bypass_bits: u32,
    bypass_max_value: u32,
    descs: Vec<DistributionDesc>,
    cdf_table: Vec<Freq>,
    model: Ghost<Option<EntropyModel>>,
    _s: PhantomData<S>,
}

/// The decoder's descriptors match the model; each distribution's
/// cumulative table starts at `len_sum(d) + d`.
pub open spec fn cdf_descs_match(descs: Seq<DistributionDesc>, m: EntropyModel) -> bool {
    &&& descs.len() == m.lengths.len()
    &&& forall|d: int|
        0 <= d < descs.len() ==> (#[trigger] descs[d]).value_offset == m.offsets[d]
            && descs[d].bypass_sentinel == m.lengths[d] - 1 && descs[d].symbol_offset == len_sum(
            m.lengths,
            d,
        ) + d
}

impl<S: RansParams> EntropyDecoder<S> {
    /// The tables held, `None` before a successful `initialize`.
    pub closed spec fn model(&self) -> Option<EntropyModel> {
        self.model@
    }

    /// The decoder's invariant: the cumulative tables match the model.
    pub closed spec fn wf(&self) -> bool {
        match self.model@ {
            None => self.symbol_bits == 0,
            Some(m) => {
                &&& model_ok(m, S::spec_variant())
                &&& m.table.len() + m.lengths.len() <= usize::MAX
                &&& self.symbol_bits == m.symbol_bits
                &&& self.bypass_bits == m.bypass_bits
                &&& self.bypass_max_value == bypass_max(m.bypass_bits)
                &&& cdf_descs_match(self.descs@, m)
                &&& self.cdf_table@.len() == m.table.len() + m.lengths.len()
                &&& forall|d: int, k: int|
                    0 <= d < m.lengths.len() && 0 <= k <= m.lengths[d] ==> self.cdf_table@[len_sum(
                        m.lengths,
                        d,
                    ) + d + k] == #[trigger] pmf_start(m.lengths, m.table, d, k)
            },
        }
    }

    /// Create a new uninitialised entropy decoder.
    pub fn new() -> (e: Self)
        ensures
            e.wf(),
            e.model() is None,
    {
        Self {
            symbol_bits: 0,
            bypass_bits: 0,
            bypass_max_value: 0,
            descs: Vec::new(),
            cdf_table: Vec::new(),
            model: Ghost(None),
            _s: PhantomData,
        }
    }

    /// Initialise the decoder with PMF distribution data (the same data the
    /// encoder was initialised with). On error the decoder is left unchanged.
    pub fn initialize(
        &mut self,
        pmf_lengths: &[i32],
        pmf_offsets: &[i32],
        pmf_table: &[i32],
        symbol_bits: u32,
        bypass_bits: u32,
    ) -> (r: Result<(), EntropyError>)
        requires
            old(self).wf(),
        ensures
            final(self).wf(),
            r == pmf_check(
                pmf_lengths@,
                pmf_offsets@,
                pmf_table@,
                symbol_bits as nat,
                bypass_bits as nat,
                S::spec_variant(),
            ),
            r is Ok ==> final(self).model() == Some(
                model_of(
                    pmf_lengths@,
                    pmf_offsets@,
                    pmf_table@,
                    symbol_bits as nat,
                    bypass_bits as nat,
                ),
            ),
            r is Err ==> *final(self) == *old(self),
    {
        let variant: RansVariant = S::variant();
        let max_scale_bits: u32 = match variant {
            RansVariant::RansByte => 30,
            RansVariant::Rans64 => 32,
        };
        check_bits(symbol_bits, max_scale_bits)?;
        check_bits(bypass_bits, max_scale_bits)?;
        let max_safe_bits: u32 = match variant {
            RansVariant::RansByte => 30,
            RansVariant::Rans64 => 31,
        };
        if symbol_bits > max_safe_bits || bypass_bits > max_safe_bits {
            return Err(EntropyError::InvalidParams);
        }
        let descs: Vec<DistributionDesc> = initialize_distribution_desc(
            pmf_lengths,
            pmf_offsets,
            pmf_table.len(),
        )?;
        let (starts, freqs) = build_symbol_table(&descs, pmf_lengths, pmf_table, symbol_bits)?;
        let ghost m = model_of(
            pmf_lengths@,
            pmf_offsets@,
            pmf_table@,
            symbol_bits as nat,
            bypass_bits as nat,
        );
        let ghost lengths = pmf_lengths@;
        let ghost table = pmf_table@;
        let num_dist: usize = descs.len();
        let table_len: usize = pmf_table.len();
        proof {
            lemma_len_sum_mono(lengths, 0, num_dist as int);
        }
        let capacity: usize = match pmf_table.len().checked_add(num_dist) {
            Some(c) => c,
            None => pmf_table.len(),
        };
        let mut cdf_table: Vec<Freq> = Vec::with_capacity(capacity);
        let mut cdf_descs: Vec<DistributionDesc> = Vec::with_capacity(num_dist);
        let mut d: usize = 0;
        while d < num_dist
            invariant
                m == model_of(lengths, pmf_offsets@, table, symbol_bits as nat, bypass_bits as nat),
                lengths == pmf_lengths@,
                table == pmf_table@,
                model_ok(m, S::spec_variant()),
                num_dist == lengths.len(),
                table_len == table.len(),
                descs@.len() == num_dist,
                forall|e: int|
                    0 <= e < num_dist ==> (#[trigger] descs@[e]).value_offset == pmf_offsets@[e]
                        && descs@[e].bypass_sentinel == lengths[e] - 1 && descs@[e].symbol_offset
                        == len_sum(lengths, e),
                starts@.len() == table.len(),
                freqs@.len() == table.len(),
                forall|e: int, j: int|
                    0 <= e < num_dist && 0 <= j < lengths[e] ==> starts@[len_sum(lengths, e) + j]
                        == #[trigger] pmf_start(lengths, table, e, j) && freqs@[len_sum(lengths, e)
                        + j] == pmf_entry(lengths, table, e, j),
                d <= num_dist,
                cdf_table@.len() == len_sum(lengths, d as int) + d,
                cdf_descs@.len() == d,
                forall|e: int|
                    0 <= e < d ==> (#[trigger] cdf_descs@[e]).value_offset == pmf_offsets@[e]
                        && cdf_descs@[e].bypass_sentinel == lengths[e] - 1
                        && cdf_descs@[e].symbol_offset == len_sum(lengths, e) + e,
                forall|e: int, k: int|
                    0 <= e < d && 0 <= k <= lengths[e] ==> cdf_table@[len_sum(lengths, e) + e + k]
                        == #[trigger] pmf_start(lengths, table, e, k),
            decreases num_dist - d,
        {
            let desc: DistributionDesc = descs[d];
            let base: usize = desc.symbol_offset;
            let len: usize = (desc.bypass_sentinel + 1) as usize;
            proof {
                lemma_len_sum_mono(lengths, d as int + 1, num_dist as int);
                lemma_len_sum_nonneg(lengths, d as int);
            }
            cdf_descs.push(
                DistributionDesc {
                    value_offset: desc.value_offset,
                    bypass_sentinel: desc.bypass_sentinel,
                    symbol_offset: cdf_table.len(),
                },
            );
            let ghost c0 = cdf_table@;
            let mut k: usize = 0;
            while k < len
                invariant
                    m == model_of(lengths, pmf_offsets@, table, symbol_bits as nat, bypass_bits as nat),
                    model_ok(m, S::spec_variant()),
                    num_dist == lengths.len(),
                    d < num_dist,
                    table_len == table.len(),
                    base == len_sum(lengths, d as int),
                    len == lengths[d as int],
                    base + len <= table.len(),
                    starts@.len() == table.len(),
                    forall|e: int, j: int|
                        0 <= e < num_dist && 0 <= j < lengths[e] ==> starts@[len_sum(lengths, e)
                            + j] == #[trigger] pmf_start(lengths, table, e, j) && freqs@[len_sum(
                            lengths,
                            e,
                        ) + j] == pmf_entry(lengths, table, e, j),
                    k <= len,
                    c0.len() == base + d,
                    cdf_table@.len() == base + d + k,
                    cdf_table@.subrange(0, c0.len() as int) == c0,
                    forall|j: int| 0 <= j < k ==> cdf_table@[base + d + j] == #[trigger] pmf_start(lengths, table, d as int, j),
                decreases len - k,
            {
                proof {
                    assert(starts@[base + k] == pmf_start(lengths, table, d as int, k as int));
                }
                cdf_table.push(starts[base + k]);
                proof {
                    assert(cdf_table@.subrange(0, c0.len() as int) =~= c0);
                }
                k += 1;
            }
            proof {
                assert(starts@[base + len - 1] == pmf_start(lengths, table, d as int, len - 1));
                assert(freqs@[base + len - 1] == pmf_entry(lengths, table, d as int, len - 1));
                assert(freqs_ok(lengths, table, symbol_bits as nat));
                assert(pmf_entry(lengths, table, d as int, len - 1) > 0);
                assert(pmf_start(lengths, table, d as int, len as int) == pmf_start(lengths, table, d as int, len - 1) + pmf_entry(lengths, table, d as int, len - 1));
                lemma2_to64();
                lemma_pow2_strictly_increases(symbol_bits as nat, 32);
            }
            let total: Freq = starts[base + len - 1] + freqs[base + len - 1];
            cdf_table.push(total);
            proof {
                assert(cdf_table@.subrange(0, c0.len() as int) =~= c0);
                assert(len_sum(lengths, d as int + 1) == base + len);
                assert forall|e: int, kk: int|
                    0 <= e < d + 1 && 0 <= kk <= lengths[e] implies cdf_table@[len_sum(lengths, e) + e + kk]
                    == #[trigger] pmf_start(lengths, table, e, kk) by {
                    if e < d {
                        lemma_len_sum_mono(lengths, e + 1, d as int);
                        assert(len_sum(lengths, e + 1) == len_sum(lengths, e) + lengths[e]);
                        assert(len_sum(lengths, e) + e + kk < base + d);
                        lemma_len_sum_nonneg(lengths, e);
                        let i = len_sum(lengths, e) + e + kk;
                        assert(c0[i] == cdf_table@.subrange(0, c0.len() as int)[i]);
                        assert(cdf_table@[len_sum(lengths, e) + e + kk] == c0[len_sum(lengths, e) + e + kk]);
                    } else if kk < len {
                        assert(0 <= kk < k);
                    }
                }
            }
            d += 1;
        }
        proof {
            lemma2_to64();
            lemma_pow2_strictly_increases(bypass_bits as nat, 32);
            lemma_u32_shl_is_mul(1, bypass_bits);
        }
        let bypass_max_value: u32 = (1u32 << bypass_bits) - 1;
        let cdf_len: usize = cdf_table.len();
        proof {
            assert(cdf_len == table.len() + num_dist);
        }
        *self = Self {
            symbol_bits,
            bypass_bits,
            bypass_max_value,
            descs: cdf_descs,
            cdf_table,
            model: Ghost(Some(m)),
            _s: PhantomData,
        };
        Ok(())
    }
}

impl<S: RansParams> EntropyDecoder<S> {
    /// Binary search of distribution `d`'s cumulative table for the last
    /// entry whose start is at most `cum` (upper bound minus one).
    fn find_symbol(&self, base: usize, sentinel: usize, cum: u32, Ghost(d): Ghost<int>) -> (k: usize)
        requires
            self.wf(),
            self.model() is Some,
            0 <= d < self.model()->0.lengths.len(),
            base == len_sum(self.model()->0.lengths, d) + d,
            sentinel == self.model()->0.lengths[d] - 1,
        ensures
            k == find_entry(self.model()->0, d, cum as nat, sentinel as int),
            k <= sentinel,
    {
        let ghost m = self.model@->0;
        proof {
            lemma_len_sum_entry(m.lengths, d, sentinel as int, m.lengths.len() as int);
            lemma_len_sum_mono(m.lengths, d + 1, m.lengths.len() as int);
            assert(len_sum(m.lengths, d + 1) == len_sum(m.lengths, d) + m.lengths[d]);
        }
        let lo: usize = base + 1;
        let hi: usize = base + sentinel + 1;
        let mut low: usize = lo;
        let mut high: usize = hi;
        while low < high
            invariant
                self.wf(),
                self.model@ == Some(m),
                0 <= d < m.lengths.len(),
                base == len_sum(m.lengths, d) + d,
                sentinel == m.lengths[d] - 1,
                hi < self.cdf_table@.len(),
                lo == base + 1,
                hi == base + sentinel + 1,
                lo <= low <= high <= hi,
                low == lo || self.cdf_table@[low - 1] <= cum,
                high == hi || self.cdf_table@[high as int] > cum,
            decreases high - low,
        {
            let mid: usize = low + (high - low) / 2;
            if cum < self.cdf_table[mid] {
                high = mid;
            } else {
                low = mid + 1;
            }
        }
        let k: usize = low - 1 - base;
        proof {
            if k > 0 {
                assert(self.cdf_table@[len_sum(m.lengths, d) + d + k] == pmf_start(
                    m.lengths,
                    m.table,
                    d,
                    k as int,
                ));
            }
            if k < sentinel {
                assert(self.cdf_table@[len_sum(m.lengths, d) + d + k + 1] == pmf_start(
                    m.lengths,
                    m.table,
                    d,
                    k + 1,
                ));
            }
            lemma_find_entry(m, d, cum as nat, k as int, sentinel as int);
        }
        k
    }
}

/// An advance never moves a position at or below `len` backwards or past `len`.
pub open spec fn adv_bounded(adv: spec_fn(nat, nat, nat, nat, nat) -> Option<(nat, nat)>, len: nat) -> bool {
    forall|x: nat, start: nat, freq: nat, bits: nat, pos: nat|
        #![trigger adv(x, start, freq, bits, pos)]
        pos <= len ==> match adv(x, start, freq, bits, pos) {
            Some((_, p2)) => pos <= p2 <= len,
            None => true,
        }
}

proof fn lemma_byte_dec_renorm_bounded(x: nat, data: Seq<u8>, pos: nat)
    requires
        pos <= data.len(),
    ensures
        byte_dec_renorm(x, data, pos) matches Some((_, p2)) ==> pos <= p2 <= data.len(),
    decreases data.len() - pos,
{
    if x < byte_lower() && pos < data.len() {
        lemma_byte_dec_renorm_bounded(x * 256 + data[pos as int] as nat, data, pos + 1);
    }
}

/// The RansByte advance reads forward within the data.
pub proof fn lemma_byte_adv_bounded(data: Seq<u8>)
    ensures
        adv_bounded(byte_adv(data), data.len()),
{
    assert forall|x: nat, start: nat, freq: nat, bits: nat, pos: nat|
        pos <= data.len() implies match #[trigger] byte_adv(data)(x, start, freq, bits, pos) {
            Some((_, p2)) => pos <= p2 <= data.len(),
            None => true,
        } by {
        lemma_byte_dec_renorm_bounded(rans_unstep(x, start, freq, bits), data, pos);
    }
}

/// The Rans64 advance reads forward within the data.
pub proof fn lemma_r64_adv_bounded(data: Seq<u32>)
    ensures
        adv_bounded(r64_adv(data), data.len()),
{
}

proof fn lemma_dec_count_bounded(
    adv: spec_fn(nat, nat, nat, nat, nat) -> Option<(nat, nat)>,
    len: nat,
    bits: nat,
    x: nat,
    pos: nat,
    total: nat,
)
    requires
        adv_bounded(adv, len),
        pos <= len,
    ensures
        dec_count(adv, bits, x, pos, total) matches Some((_, _, p2)) ==> pos <= p2 <= len,
    decreases 33 - total,
{
    if bits > 0 {
        let v = x % pow2(bits);
        let _ = adv(x, v, 1, bits, pos);
        match unit_read(adv, bits, x, pos) {
            None => {},
            Some((v, x2, p2)) => {
                if v == bypass_max(bits) && total + v <= 32 {
                    lemma_pow2_strictly_increases(0, bits);
                    lemma2_to64();
                    lemma_dec_count_bounded(adv, len, bits, x2, p2, total + v);
                }
            },
        }
    }
}

proof fn lemma_dec_digits_bounded(
    adv: spec_fn(nat, nat, nat, nat, nat) -> Option<(nat, nat)>,
    len: nat,
    bits: nat,
    x: nat,
    pos: nat,
    c: nat,
)
    requires
        adv_bounded(adv, len),
        pos <= len,
    ensures
        dec_digits(adv, bits, x, pos, c) matches Some((_, _, p2)) ==> pos <= p2 <= len,
    decreases c,
{
    if c > 0 {
        let v = x % pow2(bits);
        let _ = adv(x, v, 1, bits, pos);
        match unit_read(adv, bits, x, pos) {
            None => {},
            Some((v, x2, p2)) => {
                lemma_dec_digits_bounded(adv, len, bits, x2, p2, (c - 1) as nat);
            },
        }
    }
}

/// Decoding reads forward within the data.
pub proof fn lemma_dec_run_bounded(
    m: EntropyModel,
    adv: spec_fn(nat, nat, nat, nat, nat) -> Option<(nat, nat)>,
    len: nat,
    indices: Seq<i32>,
    x: nat,
    pos: nat,
)
    requires
        adv_bounded(adv, len),
        pos <= len,
    ensures
        dec_run(m, adv, indices, x, pos).1 matches Some((_, p2)) ==> pos <= p2 <= len,
    decreases indices.len(),
{
    if indices.len() > 0 {
        let index = indices[0];
        if index >= 0 {
            let d = dist_of(index as int, m.lengths.len() as int);
            let sentinel = m.lengths[d] - 1;
            let k = find_entry(m, d, x % pow2(m.symbol_bits), sentinel);
            let st = pmf_start(m.lengths, m.table, d, k) as nat;
            let fr = pmf_entry(m.lengths, m.table, d, k) as nat;
            match adv(x, st, fr, m.symbol_bits, pos) {
                None => {},
                Some((x1, p1)) => {
                    lemma_dec_count_bounded(adv, len, m.bypass_bits, x1, p1, 0);
                    match dec_count(adv, m.bypass_bits, x1, p1, 0) {
                        None => {},
                        Some((c, x2, p2)) => {
                            lemma_dec_digits_bounded(adv, len, m.bypass_bits, x2, p2, c);
                        },
                    }
                },
            }
        }
        match dec_elem(m, adv, index, x, pos) {
            None => {},
            Some((v, x2, p2)) => {
                lemma_dec_run_bounded(m, adv, len, indices.drop_first(), x2, p2);
            },
        }
    }
}

/// Digits decoded so far (`acc`, covering `shift` bits) combined with the
/// value of the remaining digits.
pub open spec fn digits_acc(acc: nat, shift: nat, rest: Option<(nat, nat, nat)>) -> Option<
    (nat, nat, nat),
> {
    match rest {
        None => None,
        Some((r, x, p)) => Some((acc + pow2(shift) * r, x, p)),
    }
}

/// Or-ing a value into bits above those of `a` adds it.
proof fn lemma_or_above(a: u64, v: u64, s: u64)
    by (bit_vector)
    requires
        s < 64,
        a < (1u64 << s),
    ensures
        a | (v << s) == a + (v << s),
{
}

/// The values written by a decode: the decoded prefix over the old contents.
pub open spec fn decoded_into(outs: Seq<i32>, old_values: Seq<i32>) -> Seq<i32> {
    outs + old_values.skip(outs.len() as int)
}

/// Little-endian 32-bit units of a byte sequence (whole groups of four).
pub open spec fn bytes_le_units(bytes: Seq<u8>) -> Seq<u32> {
    Seq::new(bytes.len() / 4, |i: int| le_value4(bytes, 4 * i) as u32)
}

/// After initialisation: decode every element, then check the stream's end
/// as asked (`need_exhausted`: every unit read; `need_eof`: the state back
/// at `lower`). The result holds the final unit position.
pub open spec fn run_checked(
    m: EntropyModel,
    adv: spec_fn(nat, nat, nat, nat, nat) -> Option<(nat, nat)>,
    indices: Seq<i32>,
    x: nat,
    pos: nat,
    len: nat,
    lower: nat,
    need_exhausted: bool,
    need_eof: bool,
) -> (Result<nat, EntropyError>, Seq<i32>) {
    let run = dec_run(m, adv, indices, x, pos);
    match run.1 {
        None => (Err(EntropyError::InvalidStream), run.0),
        Some((xf, pf)) => if (need_exhausted && pf < len) || (need_eof && xf != lower) {
            (Err(EntropyError::InvalidStream), run.0)
        } else {
            (Ok(pf), run.0)
        },
    }
}

/// The outcome of decoding `indices` from the bytes of one stream with the
/// variant's raw decoder: the result (the final unit position on success)
/// and the values written.
pub open spec fn decode_spec(
    m: Option<EntropyModel>,
    indices: Seq<i32>,
    n_values: nat,
    v: RansVariant,
    bytes: Seq<u8>,
    need_exhausted: bool,
    need_eof: bool,
) -> (Result<nat, EntropyError>, Seq<i32>) {
    match m {
        None => (Err(EntropyError::InvalidState), Seq::empty()),
        Some(m) => if indices.len() != n_values {
            (Err(EntropyError::InvalidParams), Seq::empty())
        } else {
            match v {
                RansVariant::RansByte => match byte_init(bytes, 0) {
                    None => (Err(EntropyError::InvalidStream), Seq::empty()),
                    Some((x, p)) => run_checked(
                        m,
                        byte_adv(bytes),
                        indices,
                        x,
                        p,
                        bytes.len(),
                        byte_lower(),
                        need_exhausted,
                        need_eof,
                    ),
                },
                RansVariant::Rans64 => if bytes.len() % 4 != 0 {
                    (Err(EntropyError::InvalidStream), Seq::empty())
                } else {
                    let units = bytes_le_units(bytes);
                    match r64_init(units, 0) {
                        None => (Err(EntropyError::InvalidStream), Seq::empty()),
                        Some((x, p)) => run_checked(
                            m,
                            r64_adv(units),
                            indices,
                            x,
                            p,
                            units.len(),
                            r64_lower(),
                            need_exhausted,
                            need_eof,
                        ),
                    }
                },
            }
        },
    }
}

/// Little-endian 32-bit units of `data` (whole groups of four bytes).
pub(crate) fn bytes_to_u32_units(data: &[u8]) -> (units: Vec<u32>)
    ensures
        units@ == bytes_le_units(data@),
{
    let len: usize = data.len();
    let n: usize = len / 4;
    let mut units: Vec<u32> = Vec::with_capacity(n);
    let mut i: usize = 0;
    while i < n
        invariant
            len == data@.len(),
            n == data@.len() / 4,
            4 * n <= data@.len(),
            i <= n,
            units@.len() == i,
            forall|j: int| 0 <= j < i ==> units@[j] == #[trigger] bytes_le_units(data@)[j],
        decreases n - i,
    {
        let b0: u32 = data[4 * i] as u32;
        let b1: u32 = data[4 * i + 1] as u32;
        let b2: u32 = data[4 * i + 2] as u32;
        let b3: u32 = data[4 * i + 3] as u32;
        let u: u32 = b0 | (b1 << 8u32) | (b2 << 16u32) | (b3 << 24u32);
        proof {
            assert(u == b0 + b1 * 0x100 + b2 * 0x1_0000 + b3 * 0x100_0000) by (bit_vector)
                requires
                    b0 < 256,
                    b1 < 256,
                    b2 < 256,
                    b3 < 256,
                    u == b0 | (b1 << 8u32) | (b2 << 16u32) | (b3 << 24u32),
            ;
            assert(le_value4(data@, 4 * i) == u);
        }
        units.push(u);
        i += 1;
    }
    proof {
        assert(units@ =~= bytes_le_units(data@));
    }
    units
}

impl EntropyDecoder<RansByte> {
    /// Decode a bypass digit count (remainder-coded prefix).
    fn decode_bypass_count(&self, decoder: &mut RansByteDecoder) -> (r: Result<u32, EntropyError>)
        requires
            self.wf(),
            self.model() is Some,
        ensures
            final(decoder).data() == old(decoder).data(),
            match dec_count(
                byte_adv(old(decoder).data()),
                self.model()->0.bypass_bits,
                old(decoder).spec_state(),
                old(decoder).pos(),
                0,
            ) {
                None => r == Err::<u32, EntropyError>(EntropyError::InvalidStream),
                Some((c, x, p)) => r == Ok::<u32, EntropyError>(c as u32) && final(decoder).spec_state()
                    == x && final(decoder).pos() == p,
            },
    {
        let ghost m = self.model@->0;
        let bb: u32 = self.bypass_bits;
        let mx: u32 = self.bypass_max_value;
        let ghost adv = byte_adv(decoder.data());
        let ghost goal = dec_count(adv, bb as nat, decoder.spec_state(), decoder.pos(), 0);
        proof {
            lemma_pow2_strictly_increases(0, bb as nat);
            lemma_pow2_strictly_increases(bb as nat, 32);
            lemma2_to64();
        }
        let mut total: u32 = 0;
        loop
            invariant
                self.wf(),
                self.model@ == Some(m),
                bb == m.bypass_bits,
                2 <= bb <= 31,
                2 <= pow2(bb as nat) <= 0x8000_0000,
                mx == bypass_max(bb as nat),
                decoder.data() == old(decoder).data(),
                adv == byte_adv(decoder.data()),
                goal == dec_count(
                    byte_adv(old(decoder).data()),
                    bb as nat,
                    old(decoder).spec_state(),
                    old(decoder).pos(),
                    0,
                ),
                total <= 32,
                goal == dec_count(adv, bb as nat, decoder.spec_state(), decoder.pos(), total as nat),
            decreases 33 - total,
        {
            let value: u32 = decoder.get(bb);
            if !decoder.advance(value, 1, bb) {
                return Err(EntropyError::InvalidStream);
            }
            total += value;
            if value != mx {
                return Ok(total);
            }
            if total > 32 {
                return Err(EntropyError::InvalidStream);
            }
        }
    }

    /// Decode `bypass_count` digits (least significant first) into the
    /// bypass value, rejecting counts whose bits reach 64.
    fn decode_bypass_value_payload(&self, decoder: &mut RansByteDecoder, bypass_count: u32) -> (r:
        Result<u32, EntropyError>)
        requires
            self.wf(),
            self.model() is Some,
        ensures
            final(decoder).data() == old(decoder).data(),
            bypass_count * self.model()->0.bypass_bits >= 64 ==> r == Err::<u32, EntropyError>(
                EntropyError::InvalidStream,
            ),
            bypass_count * self.model()->0.bypass_bits < 64 ==> match dec_digits(
                byte_adv(old(decoder).data()),
                self.model()->0.bypass_bits,
                old(decoder).spec_state(),
                old(decoder).pos(),
                bypass_count as nat,
            ) {
                None => r == Err::<u32, EntropyError>(EntropyError::InvalidStream),
                Some((v, x, p)) => r == Ok::<u32, EntropyError>((v % 0x1_0000_0000) as u32)
                    && final(decoder).spec_state() == x && final(decoder).pos() == p,
            },
    {
        let ghost m = self.model@->0;
        let bb: u32 = self.bypass_bits;
        let mut encoded_value: u64 = 0;
        proof {
            assert((bypass_count as u64) * (bb as u64) <= 0xffff_ffff * 31) by (nonlinear_arith)
                requires
                    bb <= 31,
            ;
        }
        let total_bits: u64 = bypass_count as u64 * bb as u64;
        if total_bits >= 64 {
            return Err(EntropyError::InvalidStream);
        }
        let ghost adv = byte_adv(decoder.data());
        let ghost c: nat = bypass_count as nat;
        let ghost goal = dec_digits(adv, bb as nat, decoder.spec_state(), decoder.pos(), c);
        proof {
            lemma_pow2_strictly_increases(0, bb as nat);
            lemma_pow2_strictly_increases(bb as nat, 32);
            lemma2_to64();
            assert(goal == digits_acc(0, 0, goal));
        }
        let mut shift: u64 = 0;
        let ghost mut i: nat = 0;
        while shift < total_bits
            invariant
                self.wf(),
                self.model@ == Some(m),
                bb == m.bypass_bits,
                2 <= bb <= 31,
                2 <= pow2(bb as nat) <= 0x8000_0000,
                decoder.data() == old(decoder).data(),
                adv == byte_adv(decoder.data()),
                c == bypass_count,
                total_bits == c * bb,
                total_bits < 64,
                goal == dec_digits(
                    byte_adv(old(decoder).data()),
                    bb as nat,
                    old(decoder).spec_state(),
                    old(decoder).pos(),
                    c,
                ),
                i <= c,
                shift == i * bb,
                encoded_value < pow2(shift as nat),
                goal == digits_acc(
                    encoded_value as nat,
                    shift as nat,
                    dec_digits(adv, bb as nat, decoder.spec_state(), decoder.pos(), (c - i) as nat),
                ),
            decreases c - i,
        {
            proof {
                assert(i < c) by (nonlinear_arith)
                    requires
                        i * bb < c * bb,
                        bb > 0,
                ;
                assert(shift + bb <= total_bits) by (nonlinear_arith)
                    requires
                        shift == i * bb,
                        total_bits == c * bb,
                        i + 1 <= c,
                ;
            }
            let v: u32 = decoder.get(bb);
            let ghost x_before = decoder.spec_state();
            let ghost p_before = decoder.pos();
            if !decoder.advance(v, 1, bb) {
                proof {
                    assert(unit_read(adv, bb as nat, x_before, p_before) is None);
                    assert(dec_digits(adv, bb as nat, x_before, p_before, (c - i) as nat) is None);
                }
                return Err(EntropyError::InvalidStream);
            }
            proof {
                lemma2_to64();
                let s = shift as nat;
                let e: nat = s + bb as nat;
                lemma_pow2_adds(s, bb as nat);
                lemma_pow2_pos(s);
                lemma_pow2_strictly_increases(e, 64);
                lemma_pow2_strictly_increases(s, 64);
                assert(v * pow2(s) < pow2(e)) by (nonlinear_arith)
                    requires
                        v < pow2(bb as nat),
                        pow2(e) == pow2(s) * pow2(bb as nat),
                        pow2(s) > 0,
                ;
                lemma_u64_shl_is_mul(v as u64, shift);
                lemma_u64_shl_is_mul(1, shift);
                lemma_or_above(encoded_value, v as u64, shift);
                let rest = dec_digits(adv, bb as nat, decoder.spec_state(), decoder.pos(), (c - i - 1) as nat);
                match rest {
                    Some((r, x3, p3)) => {
                        assert(encoded_value + v * pow2(s) + pow2(e) * r == encoded_value
                            + pow2(s) * (v + pow2(bb as nat) * r)) by (nonlinear_arith)
                            requires
                                pow2(e) == pow2(s) * pow2(bb as nat),
                        ;
                    },
                    None => {},
                }
                assert(encoded_value + v * pow2(s) < pow2(e)) by (nonlinear_arith)
                    requires
                        encoded_value < pow2(s),
                        v + 1 <= pow2(bb as nat),
                        pow2(e) == pow2(s) * pow2(bb as nat),
                ;
            }
            encoded_value = encoded_value | ((v as u64) << shift);
            shift = shift + bb as u64;
            proof {
                i = i + 1;
                assert(shift == i * bb) by (nonlinear_arith)
                    requires
                        shift == (i - 1) * bb + bb,
                ;
            }
        }
        proof {
            assert(i >= c) by (nonlinear_arith)
                requires
                    i * bb >= c * bb,
                    bb > 0,
            ;
            assert(encoded_value as u32 == (encoded_value % 0x1_0000_0000) as u32) by (bit_vector);
            assert((c - i) as nat == 0);
            assert(dec_digits(adv, bb as nat, decoder.spec_state(), decoder.pos(), 0) == Some(
                (0nat, decoder.spec_state(), decoder.pos()),
            ));
            assert(pow2(shift as nat) * 0 == 0);
            assert(goal == Some((encoded_value as nat, decoder.spec_state(), decoder.pos())));
        }
        Ok(encoded_value as u32)
    }

    /// Decode one element (see `dec_elem`).
    fn decode_one(&self, decoder: &mut RansByteDecoder, index: i32) -> (r: Result<i32, EntropyError>)
        requires
            self.wf(),
            self.model() is Some,
        ensures
            final(decoder).data() == old(decoder).data(),
            match dec_elem(
                self.model()->0,
                byte_adv(old(decoder).data()),
                index,
                old(decoder).spec_state(),
                old(decoder).pos(),
            ) {
                None => r == Err::<i32, EntropyError>(EntropyError::InvalidStream),
                Some((v, x, p)) => r == Ok::<i32, EntropyError>(v) && final(decoder).spec_state() == x
                    && final(decoder).pos() == p,
            },
    {
        let ghost m = self.model@->0;
        if index < 0 {
            return Ok(0);
        }
        let dist_len: usize = self.descs.len();
        let ui: usize = if (index as usize) < dist_len {
            index as usize
        } else {
            dist_len - 1
        };
        let desc: DistributionDesc = self.descs[ui];
        let ghost d: int = ui as int;
        proof {
            assert(d == dist_of(index as int, m.lengths.len() as int));
            assert(desc == self.descs@[d]);
            lemma_len_sum_entry(m.lengths, d, m.lengths[d] - 1, m.lengths.len() as int);
        }
        let sb: u32 = self.symbol_bits;
        let cum: u32 = decoder.get(sb);
        let base: usize = desc.symbol_offset;
        let sentinel: usize = desc.bypass_sentinel as usize;
        let k: usize = self.find_symbol(base, sentinel, cum, Ghost(d));
        proof {
            lemma_find_entry_le(m, d, cum as nat, sentinel as int);
            lemma_entry_valid(m, RansVariant::RansByte, d, k as int);
            assert(self.cdf_table@[len_sum(m.lengths, d) + d + k] == pmf_start(m.lengths, m.table, d, k as int));
            assert(self.cdf_table@[len_sum(m.lengths, d) + d + k + 1] == pmf_start(m.lengths, m.table, d, k + 1));
            assert(pmf_start(m.lengths, m.table, d, k + 1) == pmf_start(m.lengths, m.table, d, k as int)
                + pmf_entry(m.lengths, m.table, d, k as int));
        }
        let s0: u32 = self.cdf_table[base + k];
        let s1: u32 = self.cdf_table[base + k + 1];
        let freq: u32 = s1 - s0;
        if !decoder.advance_symbol(&RansByteDecSymbol::new(s0, freq), sb) {
            return Err(EntropyError::InvalidStream);
        }
        let mut symbol: i32 = k as i32;
        if k == sentinel {
            proof {
                lemma_dec_count_bound(byte_adv(decoder.data()), m.bypass_bits, decoder.spec_state(), decoder.pos(), 0);
                lemma2_to64();
                lemma_pow2_strictly_increases(m.bypass_bits, 32);
            }
            let bypass_count: u32 = self.decode_bypass_count(decoder)?;
            let bypass_value: u32 = self.decode_bypass_value_payload(decoder, bypass_count)?;
            let half: i64 = (bypass_value >> 1u32) as i64;
            proof {
                assert(bypass_value >> 1u32 == bypass_value / 2 && (bypass_value & 1u32 != 0u32) == (bypass_value
                    % 2 == 1)) by (bit_vector);
            }
            if bypass_value & 1 != 0 {
                proof {
                    assert(bypass_symbol(bypass_value as nat, sentinel as int) == -half - 1);
                }
                symbol = (-half - 1) as i32;
            } else {
                let sv: i64 = half + desc.bypass_sentinel as i64;
                if sv > i32::MAX as i64 {
                    return Err(EntropyError::InvalidStream);
                }
                symbol = sv as i32;
            }
        }
        let value: i64 = symbol as i64 - desc.value_offset as i64;
        if value < i32::MIN as i64 || value > i32::MAX as i64 {
            return Err(EntropyError::InvalidStream);
        }
        Ok(value as i32)
    }

    /// Decode every element of `indices` in order from a persistent decoder.
    fn decode_inner(&self, decoder: &mut RansByteDecoder, values: &mut [i32], indices: &[i32]) -> (r:
        Result<(), EntropyError>)
        requires
            self.wf(),
        ensures
            final(decoder).data() == old(decoder).data(),
            self.model() is None ==> r == Err::<(), EntropyError>(EntropyError::InvalidState)
                && final(values)@ == old(values)@,
            self.model() is Some && indices@.len() != old(values)@.len() ==> r == Err::<
                (),
                EntropyError,
            >(EntropyError::InvalidParams) && final(values)@ == old(values)@,
            self.model() is Some && indices@.len() == old(values)@.len() ==> ({
                let run = dec_run(
                    self.model()->0,
                    byte_adv(old(decoder).data()),
                    indices@,
                    old(decoder).spec_state(),
                    old(decoder).pos(),
                );
                &&& final(values)@ == decoded_into(run.0, old(values)@)
                &&& match run.1 {
                    None => r == Err::<(), EntropyError>(EntropyError::InvalidStream),
                    Some((x, p)) => r is Ok && final(decoder).spec_state() == x
                        && final(decoder).pos() == p,
                }
            }),
    {
        if self.symbol_bits == 0 {
            return Err(EntropyError::InvalidState);
        }
        if values.len() != indices.len() {
            return Err(EntropyError::InvalidParams);
        }
        let ghost m = self.model@->0;
        let ghost adv = byte_adv(decoder.data());
        let ghost run = dec_run(m, adv, indices@, decoder.spec_state(), decoder.pos());
        let n: usize = indices.len();
        let mut i: usize = 0;
        proof {
            assert(indices@.skip(0) =~= indices@);
            assert(values@.subrange(0, 0) + run.0 =~= run.0);
        }
        while i < n
            invariant
                self.wf(),
                self.model@ == Some(m),
                n == indices@.len(),
                n == values@.len(),
                n == old(values)@.len(),
                i <= n,
                decoder.data() == old(decoder).data(),
                adv == byte_adv(old(decoder).data()),
                run == dec_run(m, adv, indices@, old(decoder).spec_state(), old(decoder).pos()),
                values@.skip(i as int) == old(values)@.skip(i as int),
                run.0 == values@.subrange(0, i as int) + dec_run(
                    m,
                    adv,
                    indices@.skip(i as int),
                    decoder.spec_state(),
                    decoder.pos(),
                ).0,
                run.1 == dec_run(m, adv, indices@.skip(i as int), decoder.spec_state(), decoder.pos()).1,
            decreases n - i,
        {
            let ghost rest = indices@.skip(i as int);
            proof {
                assert(rest[0] == indices@[i as int]);
                assert(rest.drop_first() =~= indices@.skip(i + 1));
            }
            let index: i32 = indices[i];
            let v: i32 = match self.decode_one(decoder, index) {
                Ok(v) => v,
                Err(e) => {
                    proof {
                        assert(run.0 == values@.subrange(0, i as int) + Seq::<i32>::empty());
                        assert(values@ =~= values@.subrange(0, i as int) + values@.skip(i as int));
                        assert(run.0 =~= values@.subrange(0, i as int));
                    }
                    return Err(e);
                },
            };
            let ghost vals0 = values@;
            values[i] = v;
            proof {
                assert(values@.subrange(0, i as int + 1) =~= vals0.subrange(0, i as int).push(v));
                assert(values@.skip(i as int + 1) =~= vals0.skip(i as int + 1));
                assert(vals0.skip(i as int + 1) =~= old(values)@.skip(i as int).drop_first()) by {
                    assert(vals0.skip(i as int).drop_first() =~= vals0.skip(i as int + 1));
                }
                assert(old(values)@.skip(i as int).drop_first() =~= old(values)@.skip(i as int + 1));
                let tail = dec_run(m, adv, indices@.skip(i as int + 1), decoder.spec_state(), decoder.pos());
                assert(vals0.subrange(0, i as int) + (seq![v] + tail.0) =~= vals0.subrange(0, i as int).push(v) + tail.0);
            }
            i += 1;
        }
        proof {
            assert(indices@.skip(n as int) =~= Seq::<i32>::empty());
            assert(values@.subrange(0, n as int) =~= values@);
            assert(run.0.len() == n);
            assert(old(values)@.skip(n as int) =~= Seq::<i32>::empty());
            assert(values@ =~= run.0 + old(values)@.skip(run.0.len() as int));
        }
        Ok(())
    }

    /// Decode from the start of `data`, checking the end as asked; returns
    /// the number of units read.
    fn decode_from(
        &self,
        values: &mut [i32],
        indices: &[i32],
        data: &[u8],
        need_exhausted: bool,
        need_eof: bool,
    ) -> (r: Result<usize, EntropyError>)
        requires
            self.wf(),
        ensures
            ({
                let (res, outs) = decode_spec(
                    self.model(),
                    indices@,
                    old(values)@.len(),
                    RansVariant::RansByte,
                    data@,
                    need_exhausted,
                    need_eof,
                );
                &&& final(values)@ == decoded_into(outs, old(values)@)
                &&& match res {
                    Ok(p) => r == Ok::<usize, EntropyError>(p as usize),
                    Err(e) => r == Err::<usize, EntropyError>(e),
                }
            }),
    {
        proof {
            assert(old(values)@.skip(0) =~= old(values)@);
            assert(Seq::<i32>::empty() + old(values)@ =~= old(values)@);
        }
        if self.symbol_bits == 0 {
            return Err(EntropyError::InvalidState);
        }
        if values.len() != indices.len() {
            return Err(EntropyError::InvalidParams);
        }
        let source: SliceSource<u8> = SliceSource::new(data);
        let mut decoder: RansByteDecoder = RansByteDecoder::new(source);
        if !decoder.init() {
            return Err(EntropyError::InvalidStream);
        }
        self.decode_inner(&mut decoder, values, indices)?;
        let exhausted: bool = decoder.source().is_exhausted();
        if need_exhausted && !exhausted {
            return Err(EntropyError::InvalidStream);
        }
        if need_eof && !decoder.check_eof() {
            return Err(EntropyError::InvalidStream);
        }
        Ok(decoder.source().position())
    }

    /// One-shot decode: decode `indices.len()` values from `data`, which
    /// must hold exactly one message (every unit read, state back at the
    /// lower bound). On error the values decoded before it are written.
    pub fn decode(&self, values: &mut [i32], indices: &[i32], data: &[u8]) -> (r: Result<
        (),
        EntropyError,
    >)
        requires
            self.wf(),
        ensures
            ({
                let (res, outs) = decode_spec(
                    self.model(),
                    indices@,
                    old(values)@.len(),
                    RansVariant::RansByte,
                    data@,
                    true,
                    true,
                );
                &&& final(values)@ == decoded_into(outs, old(values)@)
                &&& match res {
                    Ok(_) => r is Ok,
                    Err(e) => r == Err::<(), EntropyError>(e),
                }
            }),
    {
        self.decode_from(values, indices, data, true, true)?;
        Ok(())
    }

    /// Decode from the start of `data` without requiring every unit to be
    /// read (trailing data may follow), but requiring the end-of-message
    /// state; returns the number of bytes consumed.
    pub fn decode_partial(&self, values: &mut [i32], indices: &[i32], data: &[u8]) -> (r: Result<
        usize,
        EntropyError,
    >)
        requires
            self.wf(),
        ensures
            ({
                let (res, outs) = decode_spec(
                    self.model(),
                    indices@,
                    old(values)@.len(),
                    RansVariant::RansByte,
                    data@,
                    false,
                    true,
                );
                &&& final(values)@ == decoded_into(outs, old(values)@)
                &&& match res {
                    Ok(p) => r == Ok::<usize, EntropyError>(p as usize),
                    Err(e) => r == Err::<usize, EntropyError>(e),
                }
            }),
    {
        self.decode_from(values, indices, data, false, true)
    }

    /// Decode a batch from the start of `data` with no end check (one part
    /// of a multipart message); returns the number of bytes consumed.
    pub fn decode_batch(&self, values: &mut [i32], indices: &[i32], data: &[u8]) -> (r: Result<
        usize,
        EntropyError,
    >)
        requires
            self.wf(),
        ensures
            ({
                let (res, outs) = decode_spec(
                    self.model(),
                    indices@,
                    old(values)@.len(),
                    RansVariant::RansByte,
                    data@,
                    false,
                    false,
                );
                &&& final(values)@ == decoded_into(outs, old(values)@)
                &&& match res {
                    Ok(p) => r == Ok::<usize, EntropyError>(p as usize),
                    Err(e) => r == Err::<usize, EntropyError>(e),
                }
            }),
    {
        self.decode_from(values, indices, data, false, false)
    }

    /// The same as `decode_batch` (the name used by stream decoders).
    pub fn decode_stream(&self, values: &mut [i32], indices: &[i32], data: &[u8]) -> (r: Result<
        usize,
        EntropyError,
    >)
        requires
            self.wf(),
        ensures
            ({
                let (res, outs) = decode_spec(
                    self.model(),
                    indices@,
                    old(values)@.len(),
                    RansVariant::RansByte,
                    data@,
                    false,
                    false,
                );
                &&& final(values)@ == decoded_into(outs, old(values)@)
                &&& match res {
                    Ok(p) => r == Ok::<usize, EntropyError>(p as usize),
                    Err(e) => r == Err::<usize, EntropyError>(e),
                }
            }),
    {
        self.decode_batch(values, indices, data)
    }

    /// Continue decoding from a persistent RansByte decoder (stream mode);
    /// the decoder must already be initialised.
    pub fn decode_byte_continue(
        &self,
        raw: &mut RansByteDecoder,
        values: &mut [i32],
        indices: &[i32],
    ) -> (r: Result<(), EntropyError>)
        requires
            self.wf(),
        ensures
            final(raw).data() == old(raw).data(),
            self.model() is None ==> r == Err::<(), EntropyError>(EntropyError::InvalidState)
                && final(values)@ == old(values)@,
            self.model() is Some && indices@.len() != old(values)@.len() ==> r == Err::<
                (),
                EntropyError,
            >(EntropyError::InvalidParams) && final(values)@ == old(values)@,
            self.model() is Some && indices@.len() == old(values)@.len() ==> ({
                let run = dec_run(
                    self.model()->0,
                    byte_adv(old(raw).data()),
                    indices@,
                    old(raw).spec_state(),
                    old(raw).pos(),
                );
                &&& final(values)@ == decoded_into(run.0, old(values)@)
                &&& match run.1 {
                    None => r == Err::<(), EntropyError>(EntropyError::InvalidStream),
                    Some((x, p)) => r is Ok && final(raw).spec_state() == x && final(raw).pos()
                        == p,
                }
            }),
    {
        self.decode_inner(raw, values, indices)
    }
}


impl EntropyDecoder<Rans64> {
    /// Decode a bypass digit count (remainder-coded prefix).
    fn decode_bypass_count(&self, decoder: &mut Rans64Decoder) -> (r: Result<u32, EntropyError>)
        requires
            self.wf(),
            self.model() is Some,
        ensures
            final(decoder).data() == old(decoder).data(),
            match dec_count(
                r64_adv(old(decoder).data()),
                self.model()->0.bypass_bits,
                old(decoder).spec_state(),
                old(decoder).pos(),
                0,
            ) {
                None => r == Err::<u32, EntropyError>(EntropyError::InvalidStream),
                Some((c, x, p)) => r == Ok::<u32, EntropyError>(c as u32) && final(decoder).spec_state()
                    == x && final(decoder).pos() == p,
            },
    {
        let ghost m = self.model@->0;
        let bb: u32 = self.bypass_bits;
        let mx: u32 = self.bypass_max_value;
        let ghost adv = r64_adv(decoder.data());
        let ghost goal = dec_count(adv, bb as nat, decoder.spec_state(), decoder.pos(), 0);
        proof {
            lemma_pow2_strictly_increases(0, bb as nat);
            lemma_pow2_strictly_increases(bb as nat, 32);
            lemma2_to64();
        }
        let mut total: u32 = 0;
        loop
            invariant
                self.wf(),
                self.model@ == Some(m),
                bb == m.bypass_bits,
                2 <= bb <= 31,
                2 <= pow2(bb as nat) <= 0x8000_0000,
                mx == bypass_max(bb as nat),
                decoder.data() == old(decoder).data(),
                adv == r64_adv(decoder.data()),
                goal == dec_count(
                    r64_adv(old(decoder).data()),
                    bb as nat,
                    old(decoder).spec_state(),
                    old(decoder).pos(),
                    0,
                ),
                total <= 32,
                goal == dec_count(adv, bb as nat, decoder.spec_state(), decoder.pos(), total as nat),
            decreases 33 - total,
        {
            let value: u32 = decoder.get(bb);
            if !decoder.advance(value, 1, bb) {
                return Err(EntropyError::InvalidStream);
            }
            total += value;
            if value != mx {
                return Ok(total);
            }
            if total > 32 {
                return Err(EntropyError::InvalidStream);
            }
        }
    }

    /// Decode `bypass_count` digits (least significant first) into the
    /// bypass value, rejecting counts whose bits reach 64.
    fn decode_bypass_value_payload(&self, decoder: &mut Rans64Decoder, bypass_count: u32) -> (r:
        Result<u32, EntropyError>)
        requires
            self.wf(),
            self.model() is Some,
        ensures
            final(decoder).data() == old(decoder).data(),
            bypass_count * self.model()->0.bypass_bits >= 64 ==> r == Err::<u32, EntropyError>(
                EntropyError::InvalidStream,
            ),
            bypass_count * self.model()->0.bypass_bits < 64 ==> match dec_digits(
                r64_adv(old(decoder).data()),
                self.model()->0.bypass_bits,
                old(decoder).spec_state(),
                old(decoder).pos(),
                bypass_count as nat,
            ) {
                None => r == Err::<u32, EntropyError>(EntropyError::InvalidStream),
                Some((v, x, p)) => r == Ok::<u32, EntropyError>((v % 0x1_0000_0000) as u32)
                    && final(decoder).spec_state() == x && final(decoder).pos() == p,
            },
    {
        let ghost m = self.model@->0;
        let bb: u32 = self.bypass_bits;
        let mut encoded_value: u64 = 0;
        proof {
            assert((bypass_count as u64) * (bb as u64) <= 0xffff_ffff * 31) by (nonlinear_arith)
                requires
                    bb <= 31,
            ;
        }
        let total_bits: u64 = bypass_count as u64 * bb as u64;
        if total_bits >= 64 {
            return Err(EntropyError::InvalidStream);
        }
        let ghost adv = r64_adv(decoder.data());
        let ghost c: nat = bypass_count as nat;
        let ghost goal = dec_digits(adv, bb as nat, decoder.spec_state(), decoder.pos(), c);
        proof {
            lemma_pow2_strictly_increases(0, bb as nat);
            lemma_pow2_strictly_increases(bb as nat, 32);
            lemma2_to64();
            assert(goal == digits_acc(0, 0, goal));
        }
        let mut shift: u64 = 0;
        let ghost mut i: nat = 0;
        while shift < total_bits
            invariant
                self.wf(),
                self.model@ == Some(m),
                bb == m.bypass_bits,
                2 <= bb <= 31,
                2 <= pow2(bb as nat) <= 0x8000_0000,
                decoder.data() == old(decoder).data(),
                adv == r64_adv(decoder.data()),
                c == bypass_count,
                total_bits == c * bb,
                total_bits < 64,
                goal == dec_digits(
                    r64_adv(old(decoder).data()),
                    bb as nat,
                    old(decoder).spec_state(),
                    old(decoder).pos(),
                    c,
                ),
                i <= c,
                shift == i * bb,
                encoded_value < pow2(shift as nat),
                goal == digits_acc(
                    encoded_value as nat,
                    shift as nat,
                    dec_digits(adv, bb as nat, decoder.spec_state(), decoder.pos(), (c - i) as nat),
                ),
            decreases c - i,
        {
            proof {
                assert(i < c) by (nonlinear_arith)
                    requires
                        i * bb < c * bb,
                        bb > 0,
                ;
                assert(shift + bb <= total_bits) by (nonlinear_arith)
                    requires
                        shift == i * bb,
                        total_bits == c * bb,
                        i + 1 <= c,
                ;
            }
            let v: u32 = decoder.get(bb);
            let ghost x_before = decoder.spec_state();
            let ghost p_before = decoder.pos();
            if !decoder.advance(v, 1, bb) {
                proof {
                    assert(unit_read(adv, bb as nat, x_before, p_before) is None);
                    assert(dec_digits(adv, bb as nat, x_before, p_before, (c - i) as nat) is None);
                }
                return Err(EntropyError::InvalidStream);
            }
            proof {
                lemma2_to64();
                let s = shift as nat;
                let e: nat = s + bb as nat;
                lemma_pow2_adds(s, bb as nat);
                lemma_pow2_pos(s);
                lemma_pow2_strictly_increases(e, 64);
                lemma_pow2_strictly_increases(s, 64);
                assert(v * pow2(s) < pow2(e)) by (nonlinear_arith)
                    requires
                        v < pow2(bb as nat),
                        pow2(e) == pow2(s) * pow2(bb as nat),
                        pow2(s) > 0,
                ;
                lemma_u64_shl_is_mul(v as u64, shift);
                lemma_u64_shl_is_mul(1, shift);
                lemma_or_above(encoded_value, v as u64, shift);
                let rest = dec_digits(adv, bb as nat, decoder.spec_state(), decoder.pos(), (c - i - 1) as nat);
                match rest {
                    Some((r, x3, p3)) => {
                        assert(encoded_value + v * pow2(s) + pow2(e) * r == encoded_value
                            + pow2(s) * (v + pow2(bb as nat) * r)) by (nonlinear_arith)
                            requires
                                pow2(e) == pow2(s) * pow2(bb as nat),
                        ;
                    },
                    None => {},
                }
                assert(encoded_value + v * pow2(s) < pow2(e)) by (nonlinear_arith)
                    requires
                        encoded_value < pow2(s),
                        v + 1 <= pow2(bb as nat),
                        pow2(e) == pow2(s) * pow2(bb as nat),
                ;
            }
            encoded_value = encoded_value | ((v as u64) << shift);
            shift = shift + bb as u64;
            proof {
                i = i + 1;
                assert(shift == i * bb) by (nonlinear_arith)
                    requires
                        shift == (i - 1) * bb + bb,
                ;
            }
        }
        proof {
            assert(i >= c) by (nonlinear_arith)
                requires
                    i * bb >= c * bb,
                    bb > 0,
            ;
            assert(encoded_value as u32 == (encoded_value % 0x1_0000_0000) as u32) by (bit_vector);
            assert((c - i) as nat == 0);
            assert(dec_digits(adv, bb as nat, decoder.spec_state(), decoder.pos(), 0) == Some(
                (0nat, decoder.spec_state(), decoder.pos()),
            ));
            assert(pow2(shift as nat) * 0 == 0);
            assert(goal == Some((encoded_value as nat, decoder.spec_state(), decoder.pos())));
        }
        Ok(encoded_value as u32)
    }

    /// Decode one element (see `dec_elem`).
    fn decode_one(&self, decoder: &mut Rans64Decoder, index: i32) -> (r: Result<i32, EntropyError>)
        requires
            self.wf(),
            self.model() is Some,
        ensures
            final(decoder).data() == old(decoder).data(),
            match dec_elem(
                self.model()->0,
                r64_adv(old(decoder).data()),
                index,
                old(decoder).spec_state(),
                old(decoder).pos(),
            ) {
                None => r == Err::<i32, EntropyError>(EntropyError::InvalidStream),
                Some((v, x, p)) => r == Ok::<i32, EntropyError>(v) && final(decoder).spec_state() == x
                    && final(decoder).pos() == p,
            },
    {
        let ghost m = self.model@->0;
        if index < 0 {
            return Ok(0);
        }
        let dist_len: usize = self.descs.len();
        let ui: usize = if (index as usize) < dist_len {
            index as usize
        } else {
            dist_len - 1
        };
        let desc: DistributionDesc = self.descs[ui];
        let ghost d: int = ui as int;
        proof {
            assert(d == dist_of(index as int, m.lengths.len() as int));
            assert(desc == self.descs@[d]);
            lemma_len_sum_entry(m.lengths, d, m.lengths[d] - 1, m.lengths.len() as int);
        }
        let sb: u32 = self.symbol_bits;
        let cum: u32 = decoder.get(sb);
        let base: usize = desc.symbol_offset;
        let sentinel: usize = desc.bypass_sentinel as usize;
        let k: usize = self.find_symbol(base, sentinel, cum, Ghost(d));
        proof {
            lemma_find_entry_le(m, d, cum as nat, sentinel as int);
            lemma_entry_valid(m, RansVariant::Rans64, d, k as int);
            assert(self.cdf_table@[len_sum(m.lengths, d) + d + k] == pmf_start(m.lengths, m.table, d, k as int));
            assert(self.cdf_table@[len_sum(m.lengths, d) + d + k + 1] == pmf_start(m.lengths, m.table, d, k + 1));
            assert(pmf_start(m.lengths, m.table, d, k + 1) == pmf_start(m.lengths, m.table, d, k as int)
                + pmf_entry(m.lengths, m.table, d, k as int));
        }
        let s0: u32 = self.cdf_table[base + k];
        let s1: u32 = self.cdf_table[base + k + 1];
        let freq: u32 = s1 - s0;
        if !decoder.advance_symbol(&Rans64DecSymbol::new(s0, freq), sb) {
            return Err(EntropyError::InvalidStream);
        }
        let mut symbol: i32 = k as i32;
        if k == sentinel {
            proof {
                lemma_dec_count_bound(r64_adv(decoder.data()), m.bypass_bits, decoder.spec_state(), decoder.pos(), 0);
                lemma2_to64();
                lemma_pow2_strictly_increases(m.bypass_bits, 32);
            }
            let bypass_count: u32 = self.decode_bypass_count(decoder)?;
            let bypass_value: u32 = self.decode_bypass_value_payload(decoder, bypass_count)?;
            let half: i64 = (bypass_value >> 1u32) as i64;
            proof {
                assert(bypass_value >> 1u32 == bypass_value / 2 && (bypass_value & 1u32 != 0u32) == (bypass_value
                    % 2 == 1)) by (bit_vector);
            }
            if bypass_value & 1 != 0 {
                proof {
                    assert(bypass_symbol(bypass_value as nat, sentinel as int) == -half - 1);
                }
                symbol = (-half - 1) as i32;
            } else {
                let sv: i64 = half + desc.bypass_sentinel as i64;
                if sv > i32::MAX as i64 {
                    return Err(EntropyError::InvalidStream);
                }
                symbol = sv as i32;
            }
        }
        let value: i64 = symbol as i64 - desc.value_offset as i64;
        if value < i32::MIN as i64 || value > i32::MAX as i64 {
            return Err(EntropyError::InvalidStream);
        }
        Ok(value as i32)
    }

    /// Decode every element of `indices` in order from a persistent decoder.
    fn decode_inner(&self, decoder: &mut Rans64Decoder, values: &mut [i32], indices: &[i32]) -> (r:
        Result<(), EntropyError>)
        requires
            self.wf(),
        ensures
            final(decoder).data() == old(decoder).data(),
            self.model() is None ==> r == Err::<(), EntropyError>(EntropyError::InvalidState)
                && final(values)@ == old(values)@,
            self.model() is Some && indices@.len() != old(values)@.len() ==> r == Err::<
                (),
                EntropyError,
            >(EntropyError::InvalidParams) && final(values)@ == old(values)@,
            self.model() is Some && indices@.len() == old(values)@.len() ==> ({
                let run = dec_run(
                    self.model()->0,
                    r64_adv(old(decoder).data()),
                    indices@,
                    old(decoder).spec_state(),
                    old(decoder).pos(),
                );
                &&& final(values)@ == decoded_into(run.0, old(values)@)
                &&& match run.1 {
                    None => r == Err::<(), EntropyError>(EntropyError::InvalidStream),
                    Some((x, p)) => r is Ok && final(decoder).spec_state() == x
                        && final(decoder).pos() == p,
                }
            }),
    {
        if self.symbol_bits == 0 {
            return Err(EntropyError::InvalidState);
        }
        if values.len() != indices.len() {
            return Err(EntropyError::InvalidParams);
        }
        let ghost m = self.model@->0;
        let ghost adv = r64_adv(decoder.data());
        let ghost run = dec_run(m, adv, indices@, decoder.spec_state(), decoder.pos());
        let n: usize = indices.len();
        let mut i: usize = 0;
        proof {
            assert(indices@.skip(0) =~= indices@);
            assert(values@.subrange(0, 0) + run.0 =~= run.0);
        }
        while i < n
            invariant
                self.wf(),
                self.model@ == Some(m),
                n == indices@.len(),
                n == values@.len(),
                n == old(values)@.len(),
                i <= n,
                decoder.data() == old(decoder).data(),
                adv == r64_adv(old(decoder).data()),
                run == dec_run(m, adv, indices@, old(decoder).spec_state(), old(decoder).pos()),
                values@.skip(i as int) == old(values)@.skip(i as int),
                run.0 == values@.subrange(0, i as int) + dec_run(
                    m,
                    adv,
                    indices@.skip(i as int),
                    decoder.spec_state(),
                    decoder.pos(),
                ).0,
                run.1 == dec_run(m, adv, indices@.skip(i as int), decoder.spec_state(), decoder.pos()).1,
            decreases n - i,
        {
            let ghost rest = indices@.skip(i as int);
            proof {
                assert(rest[0] == indices@[i as int]);
                assert(rest.drop_first() =~= indices@.skip(i + 1));
            }
            let index: i32 = indices[i];
            let v: i32 = match self.decode_one(decoder, index) {
                Ok(v) => v,
                Err(e) => {
                    proof {
                        assert(run.0 == values@.subrange(0, i as int) + Seq::<i32>::empty());
                        assert(values@ =~= values@.subrange(0, i as int) + values@.skip(i as int));
                        assert(run.0 =~= values@.subrange(0, i as int));
                    }
                    return Err(e);
                },
            };
            let ghost vals0 = values@;
            values[i] = v;
            proof {
                assert(values@.subrange(0, i as int + 1) =~= vals0.subrange(0, i as int).push(v));
                assert(values@.skip(i as int + 1) =~= vals0.skip(i as int + 1));
                assert(vals0.skip(i as int + 1) =~= old(values)@.skip(i as int).drop_first()) by {
                    assert(vals0.skip(i as int).drop_first() =~= vals0.skip(i as int + 1));
                }
                assert(old(values)@.skip(i as int).drop_first() =~= old(values)@.skip(i as int + 1));
                let tail = dec_run(m, adv, indices@.skip(i as int + 1), decoder.spec_state(), decoder.pos());
                assert(vals0.subrange(0, i as int) + (seq![v] + tail.0) =~= vals0.subrange(0, i as int).push(v) + tail.0);
            }
            i += 1;
        }
        proof {
            assert(indices@.skip(n as int) =~= Seq::<i32>::empty());
            assert(values@.subrange(0, n as int) =~= values@);
            assert(run.0.len() == n);
            assert(old(values)@.skip(n as int) =~= Seq::<i32>::empty());
            assert(values@ =~= run.0 + old(values)@.skip(run.0.len() as int));
        }
        Ok(())
    }

    /// Decode from the start of `data`, checking the end as asked; returns
    /// the number of bytes read.
    fn decode_from(
        &self,
        values: &mut [i32],
        indices: &[i32],
        data: &[u8],
        need_exhausted: bool,
        need_eof: bool,
    ) -> (r: Result<usize, EntropyError>)
        requires
            self.wf(),
        ensures
            ({
                let (res, outs) = decode_spec(
                    self.model(),
                    indices@,
                    old(values)@.len(),
                    RansVariant::Rans64,
                    data@,
                    need_exhausted,
                    need_eof,
                );
                &&& final(values)@ == decoded_into(outs, old(values)@)
                &&& match res {
                    Ok(p) => r == Ok::<usize, EntropyError>((p * 4) as usize),
                    Err(e) => r == Err::<usize, EntropyError>(e),
                }
            }),
    {
        proof {
            assert(old(values)@.skip(0) =~= old(values)@);
            assert(Seq::<i32>::empty() + old(values)@ =~= old(values)@);
        }
        if self.symbol_bits == 0 {
            return Err(EntropyError::InvalidState);
        }
        if values.len() != indices.len() {
            return Err(EntropyError::InvalidParams);
        }
        if data.len() % 4 != 0 {
            return Err(EntropyError::InvalidStream);
        }
        let units: Vec<u32> = bytes_to_u32_units(data);
        let source: SliceSource<u32> = SliceSource::new(units.as_slice());
        let mut decoder: Rans64Decoder = Rans64Decoder::new(source);
        if !decoder.init() {
            return Err(EntropyError::InvalidStream);
        }
        self.decode_inner(&mut decoder, values, indices)?;
        let exhausted: bool = decoder.source().is_exhausted();
        if need_exhausted && !exhausted {
            return Err(EntropyError::InvalidStream);
        }
        if need_eof && !decoder.check_eof() {
            return Err(EntropyError::InvalidStream);
        }
        let consumed: usize = decoder.source().position();
        proof {
            lemma_r64_adv_bounded(units@);
            let x0 = r64_init(units@, 0)->0;
            lemma_dec_run_bounded(self.model@->0, r64_adv(units@), units@.len(), indices@, x0.0, x0.1);
        }
        Ok(consumed * 4)
    }

    /// One-shot decode: decode `indices.len()` values from `data`, which
    /// must hold exactly one message (every unit read, state back at the
    /// lower bound). On error the values decoded before it are written.
    pub fn decode(&self, values: &mut [i32], indices: &[i32], data: &[u8]) -> (r: Result<
        (),
        EntropyError,
    >)
        requires
            self.wf(),
        ensures
            ({
                let (res, outs) = decode_spec(
                    self.model(),
                    indices@,
                    old(values)@.len(),
                    RansVariant::Rans64,
                    data@,
                    true,
                    true,
                );
                &&& final(values)@ == decoded_into(outs, old(values)@)
                &&& match res {
                    Ok(_) => r is Ok,
                    Err(e) => r == Err::<(), EntropyError>(e),
                }
            }),
    {
        self.decode_from(values, indices, data, true, true)?;
        Ok(())
    }

    /// Decode from the start of `data` without requiring every unit to be
    /// read (trailing data may follow), but requiring the end-of-message
    /// state; returns the number of bytes consumed.
    pub fn decode_partial(&self, values: &mut [i32], indices: &[i32], data: &[u8]) -> (r: Result<
        usize,
        EntropyError,
    >)
        requires
            self.wf(),
        ensures
            ({
                let (res, outs) = decode_spec(
                    self.model(),
                    indices@,
                    old(values)@.len(),
                    RansVariant::Rans64,
                    data@,
                    false,
                    true,
                );
                &&& final(values)@ == decoded_into(outs, old(values)@)
                &&& match res {
                    Ok(p) => r == Ok::<usize, EntropyError>((p * 4) as usize),
                    Err(e) => r == Err::<usize, EntropyError>(e),
                }
            }),
    {
        self.decode_from(values, indices, data, false, true)
    }

    /// Decode a batch from the start of `data` with no end check (one part
    /// of a multipart message); returns the number of bytes consumed.
    pub fn decode_batch(&self, values: &mut [i32], indices: &[i32], data: &[u8]) -> (r: Result<
        usize,
        EntropyError,
    >)
        requires
            self.wf(),
        ensures
            ({
                let (res, outs) = decode_spec(
                    self.model(),
                    indices@,
                    old(values)@.len(),
                    RansVariant::Rans64,
                    data@,
                    false,
                    false,
                );
                &&& final(values)@ == decoded_into(outs, old(values)@)
                &&& match res {
                    Ok(p) => r == Ok::<usize, EntropyError>((p * 4) as usize),
                    Err(e) => r == Err::<usize, EntropyError>(e),
                }
            }),
    {
        self.decode_from(values, indices, data, false, false)
    }

    /// The same as `decode_batch` (the name used by stream decoders).
    pub fn decode_stream(&self, values: &mut [i32], indices: &[i32], data: &[u8]) -> (r: Result<
        usize,
        EntropyError,
    >)
        requires
            self.wf(),
        ensures
            ({
                let (res, outs) = decode_spec(
                    self.model(),
                    indices@,
                    old(values)@.len(),
                    RansVariant::Rans64,
                    data@,
                    false,
                    false,
                );
                &&& final(values)@ == decoded_into(outs, old(values)@)
                &&& match res {
                    Ok(p) => r == Ok::<usize, EntropyError>((p * 4) as usize),
                    Err(e) => r == Err::<usize, EntropyError>(e),
                }
            }),
    {
        self.decode_batch(values, indices, data)
    }

    /// Continue decoding from a persistent Rans64 decoder (stream mode);
    /// the decoder must already be initialised.
    pub fn decode_64_continue(
        &self,
        raw: &mut Rans64Decoder,
        values: &mut [i32],
        indices: &[i32],
    ) -> (r: Result<(), EntropyError>)
        requires
            self.wf(),
        ensures
            final(raw).data() == old(raw).data(),
            self.model() is None ==> r == Err::<(), EntropyError>(EntropyError::InvalidState)
                && final(values)@ == old(values)@,
            self.model() is Some && indices@.len() != old(values)@.len() ==> r == Err::<
                (),
                EntropyError,
            >(EntropyError::InvalidParams) && final(values)@ == old(values)@,
            self.model() is Some && indices@.len() == old(values)@.len() ==> ({
                let run = dec_run(
                    self.model()->0,
                    r64_adv(old(raw).data()),
                    indices@,
                    old(raw).spec_state(),
                    old(raw).pos(),
                );
                &&& final(values)@ == decoded_into(run.0, old(values)@)
                &&& match run.1 {
                    None => r == Err::<(), EntropyError>(EntropyError::InvalidStream),
                    Some((x, p)) => r is Ok && final(raw).spec_state() == x && final(raw).pos()
                        == p,
                }
            }),
    {
        self.decode_inner(raw, values, indices)
    }
}

} // verus!
