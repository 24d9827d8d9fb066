//! PMF validation and table construction shared by the entropy encoder and
//! decoder: distribution descriptors, cumulative starts and frequencies.
use crate::entropy::EntropyError;
use crate::variant::RansVariant;
use crate::Freq;
use vstd::arithmetic::power2::*;
use vstd::bits::*;
use vstd::prelude::*;

verus! {

/// Describes one probability distribution of the table.
#[derive(Debug, Clone, Copy)]
pub struct DistributionDesc {
    /// Offset added to input values for this distribution.
    pub value_offset: i32,
    /// Index of the last PMF entry (the bypass tail mass): `length - 1`.
    pub bypass_sentinel: i32,
    /// Position of the distribution's first entry in the symbol table.
    pub symbol_offset: usize,
}

/// The largest accepted symbol/bypass bit width of a variant.
pub open spec fn safe_bits(v: RansVariant) -> nat {
    match v {
        RansVariant::RansByte => 30,
        RansVariant::Rans64 => 31,
    }
}

/// Symbol and bypass bit widths are accepted for the variant.
pub open spec fn bits_ok(symbol_bits: nat, bypass_bits: nat, v: RansVariant) -> bool {
    &&& 2 <= symbol_bits <= safe_bits(v)
    &&& 2 <= bypass_bits <= safe_bits(v)
}

/// Sum of the first `n` lengths.
pub open spec fn len_sum(lengths: Seq<i32>, n: int) -> int
    decreases n,
{
    if n <= 0 {
        0
    } else {
        len_sum(lengths, n - 1) + lengths[n - 1]
    }
}

/// The PMF layout is consistent: one offset per length, every length above
/// one (the last entry is the bypass tail), and the lengths exactly cover
/// the table.
pub open spec fn layout_ok(lengths: Seq<i32>, offsets: Seq<i32>, table_size: nat) -> bool {
    &&& lengths.len() > 0
    &&& lengths.len() == offsets.len()
    &&& lengths_cover(lengths, table_size)
}

/// Every length is above one and the lengths exactly cover the table.
pub open spec fn lengths_cover(lengths: Seq<i32>, table_size: nat) -> bool {
    &&& forall|i: int| 0 <= i < lengths.len() ==> #[trigger] lengths[i] > 1
    &&& len_sum(lengths, lengths.len() as int) == table_size
}

/// Sum of `k` table entries from `base`.
pub open spec fn cum(table: Seq<i32>, base: int, k: int) -> int
    decreases k,
{
    if k <= 0 {
        0
    } else {
        cum(table, base, k - 1) + table[base + k - 1]
    }
}

/// Entry `k` of distribution `d`.
pub open spec fn pmf_entry(lengths: Seq<i32>, table: Seq<i32>, d: int, k: int) -> int {
    table[len_sum(lengths, d) + k] as int
}

/// Cumulative start of entry `k` of distribution `d`.
pub open spec fn pmf_start(lengths: Seq<i32>, table: Seq<i32>, d: int, k: int) -> int {
    cum(table, len_sum(lengths, d), k)
}

/// Every frequency is positive and each distribution's frequencies fit in
/// `2^symbol_bits`.
pub open spec fn freqs_ok(lengths: Seq<i32>, table: Seq<i32>, symbol_bits: nat) -> bool {
    forall|d: int, k: int|
        0 <= d < lengths.len() && 0 <= k < lengths[d] ==> #[trigger] pmf_entry(lengths, table, d, k)
            > 0 && pmf_start(lengths, table, d, k) + pmf_entry(lengths, table, d, k) <= pow2(
            symbol_bits,
        )
}

/// The result of validating PMF data for a variant.
pub open spec fn pmf_check(
    lengths: Seq<i32>,
    offsets: Seq<i32>,
    table: Seq<i32>,
    symbol_bits: nat,
    bypass_bits: nat,
    v: RansVariant,
) -> Result<(), EntropyError> {
    if !bits_ok(symbol_bits, bypass_bits, v) {
        Err(EntropyError::InvalidParams)
    } else if !layout_ok(lengths, offsets, table.len()) {
        Err(EntropyError::InvalidPmf)
    } else if !freqs_ok(lengths, table, symbol_bits) {
        Err(EntropyError::InvalidPmf)
    } else {
        Ok(())
    }
}

/// The distribution index used for an element's index: clamped to the last
/// distribution.
pub open spec fn dist_of(index: int, count: int) -> int {
    if index < count {
        index
    } else {
        count - 1
    }
}

/// The distribution of a global table position `k` of a valid layout and
/// the position inside it.
pub open spec fn is_entry_of(lengths: Seq<i32>, k: int, d: int, j: int) -> bool {
    0 <= d < lengths.len() && 0 <= j < lengths[d] && k == len_sum(lengths, d) + j
}

/// Check a symbol or bypass bit width against the variant's scale limit.
pub fn check_bits(prob_bits: u32, max_scale_bits: u32) -> (r: Result<(), EntropyError>)
    ensures
        r is Ok <==> 2 <= prob_bits <= max_scale_bits,
        r is Err ==> r == Err::<(), EntropyError>(EntropyError::InvalidParams),
{
    if prob_bits < 2 || prob_bits > max_scale_bits {
        return Err(EntropyError::InvalidParams);
    }
    Ok(())
}

/// `len_sum` of positive lengths is non-negative.
pub proof fn lemma_len_sum_nonneg(lengths: Seq<i32>, n: int)
    requires
        0 <= n <= lengths.len(),
        forall|i: int| 0 <= i < lengths.len() ==> #[trigger] lengths[i] > 1,
    ensures
        len_sum(lengths, n) >= 0,
    decreases n,
{
    if n > 0 {
        lemma_len_sum_nonneg(lengths, n - 1);
        assert(lengths[n - 1] > 1);
    }
}

/// Monotonicity of `len_sum` for layouts with positive lengths.
pub proof fn lemma_len_sum_mono(lengths: Seq<i32>, a: int, b: int)
    requires
        0 <= a <= b <= lengths.len(),
        forall|i: int| 0 <= i < lengths.len() ==> #[trigger] lengths[i] > 1,
    ensures
        len_sum(lengths, a) + (b - a) * 2 <= len_sum(lengths, b),
        len_sum(lengths, a) >= 0,
    decreases b,
{
    lemma_len_sum_nonneg(lengths, a);
    if b > a {
        lemma_len_sum_mono(lengths, a, b - 1);
        assert(lengths[b - 1] > 1);
    }
}

/// Entries of earlier distributions lie before the start of a later one.
pub proof fn lemma_len_sum_entry(lengths: Seq<i32>, e: int, j: int, d: int)
    requires
        0 <= e < d <= lengths.len(),
        0 <= j < lengths[e],
        forall|i: int| 0 <= i < lengths.len() ==> #[trigger] lengths[i] > 1,
    ensures
        0 <= len_sum(lengths, e) + j < len_sum(lengths, d),
{
    lemma_len_sum_nonneg(lengths, e);
    lemma_len_sum_mono(lengths, e + 1, d);
}

/// Build the distribution descriptors: validates the layout and records
/// each distribution's offset, sentinel and position in the table.
pub fn initialize_distribution_desc(
    pmf_lengths: &[i32],
    pmf_offsets: &[i32],
    pmf_table_size: usize,
) -> (r: Result<Vec<DistributionDesc>, EntropyError>)
    ensures
        r is Ok <==> layout_ok(pmf_lengths@, pmf_offsets@, pmf_table_size as nat),
        r is Err ==> r == Err::<Vec<DistributionDesc>, EntropyError>(EntropyError::InvalidPmf),
        r is Ok ==> ({
            let descs = r->Ok_0@;
            &&& descs.len() == pmf_lengths@.len()
            &&& forall|d: int|
                0 <= d < descs.len() ==> (#[trigger] descs[d]).value_offset == pmf_offsets@[d]
                    && descs[d].bypass_sentinel == pmf_lengths@[d] - 1
                    && descs[d].symbol_offset == len_sum(pmf_lengths@, d)
        }),
{
    let distribution_count: usize = pmf_lengths.len();
    if distribution_count == 0 || pmf_offsets.len() != distribution_count {
        return Err(EntropyError::InvalidPmf);
    }
    let mut descs: Vec<DistributionDesc> = Vec::with_capacity(distribution_count);
    let mut symbol_cursor: usize = 0;
    let mut i: usize = 0;
    while i < distribution_count
        invariant
            distribution_count == pmf_lengths@.len(),
            distribution_count > 0,
            pmf_offsets@.len() == distribution_count,
            i <= distribution_count,
            symbol_cursor <= pmf_table_size,
            symbol_cursor == len_sum(pmf_lengths@, i as int),
            forall|j: int| 0 <= j < i ==> #[trigger] pmf_lengths@[j] > 1,
            descs@.len() == i,
            forall|d: int|
                0 <= d < i ==> (#[trigger] descs@[d]).value_offset == pmf_offsets@[d]
                    && descs@[d].bypass_sentinel == pmf_lengths@[d] - 1
                    && descs@[d].symbol_offset == len_sum(pmf_lengths@, d),
        decreases distribution_count - i,
    {
        let length: i32 = pmf_lengths[i];
        if length <= 1 || pmf_table_size - symbol_cursor < length as usize {
            proof {
                lemma_layout_fails(pmf_lengths@, pmf_offsets@, pmf_table_size as nat, i as int);
            }
            return Err(EntropyError::InvalidPmf);
        }
        descs.push(
            DistributionDesc {
                value_offset: pmf_offsets[i],
                bypass_sentinel: length - 1,
                symbol_offset: symbol_cursor,
            },
        );
        symbol_cursor += length as usize;
        i += 1;
    }
    if symbol_cursor != pmf_table_size {
        return Err(EntropyError::InvalidPmf);
    }
    Ok(descs)
}

/// If entry `i` has length at most one, or the prefix through `i` exceeds
/// the table, the layout is invalid.
proof fn lemma_layout_fails(lengths: Seq<i32>, offsets: Seq<i32>, size: nat, i: int)
    requires
        0 <= i < lengths.len(),
        len_sum(lengths, i) <= size,
        lengths[i] <= 1 || size - len_sum(lengths, i) < lengths[i],
    ensures
        !layout_ok(lengths, offsets, size),
{
    if layout_ok(lengths, offsets, size) {
        assert(lengths[i] > 1);
        lemma_len_sum_mono(lengths, i + 1, lengths.len() as int);
    }
}

/// Walk every distribution's frequencies: checks positivity and the scale
/// bound, and returns the cumulative start and frequency of every entry.
pub fn build_symbol_table(
    descs: &Vec<DistributionDesc>,
    pmf_lengths: &[i32],
    pmf_table: &[i32],
    symbol_bits: u32,
) -> (r: Result<(Vec<Freq>, Vec<Freq>), EntropyError>)
    requires
        2 <= symbol_bits <= 31,
        lengths_cover(pmf_lengths@, pmf_table@.len()),
        descs@.len() == pmf_lengths@.len(),
        forall|d: int|
            0 <= d < descs@.len() ==> (#[trigger] descs@[d]).bypass_sentinel == pmf_lengths@[d] - 1
                && descs@[d].symbol_offset == len_sum(pmf_lengths@, d),
    ensures
        r is Ok <==> freqs_ok(pmf_lengths@, pmf_table@, symbol_bits as nat),
        r is Err ==> r == Err::<(Vec<Freq>, Vec<Freq>), EntropyError>(EntropyError::InvalidPmf),
        r is Ok ==> ({
            let (starts, freqs) = r->Ok_0;
            &&& starts@.len() == pmf_table@.len()
            &&& freqs@.len() == pmf_table@.len()
            &&& forall|d: int, j: int|
                0 <= d < pmf_lengths@.len() && 0 <= j < pmf_lengths@[d] ==> starts@[len_sum(
                    pmf_lengths@,
                    d,
                ) + j] == #[trigger] pmf_start(pmf_lengths@, pmf_table@, d, j) && freqs@[len_sum(
                    pmf_lengths@,
                    d,
                ) + j] == pmf_entry(pmf_lengths@, pmf_table@, d, j)
        }),
{
    let ghost lengths = pmf_lengths@;
    let ghost table = pmf_table@;
    proof {
        lemma2_to64();
        lemma2_to64_rest();
        lemma_pow2_strictly_increases(symbol_bits as nat, 32);
        lemma_u64_shl_is_mul(1, symbol_bits as u64);
    }
    let max_freq: u64 = 1u64 << symbol_bits as u64;
    let mut starts: Vec<Freq> = Vec::with_capacity(pmf_table.len());
    let mut freqs: Vec<Freq> = Vec::with_capacity(pmf_table.len());
    let mut pmf_cursor: usize = 0;
    let mut d: usize = 0;
    while d < descs.len()
        invariant
            max_freq == pow2(symbol_bits as nat),
            max_freq <= 0x8000_0000,
            lengths == pmf_lengths@,
            table == pmf_table@,
            lengths_cover(lengths, table.len()),
            descs@.len() == lengths.len(),
            forall|e: int|
                0 <= e < descs@.len() ==> (#[trigger] descs@[e]).bypass_sentinel == lengths[e] - 1
                    && descs@[e].symbol_offset == len_sum(lengths, e),
            d <= descs@.len(),
            pmf_cursor == len_sum(lengths, d as int),
            starts@.len() == pmf_cursor,
            freqs@.len() == pmf_cursor,
            forall|e: int, j: int|
                0 <= e < d && 0 <= j < lengths[e] ==> #[trigger] pmf_entry(lengths, table, e, j) > 0
                    && pmf_start(lengths, table, e, j) + pmf_entry(lengths, table, e, j)
                    <= pow2(symbol_bits as nat),
            forall|e: int, j: int|
                0 <= e < d && 0 <= j < lengths[e] ==> starts@[len_sum(lengths, e) + j]
                    == #[trigger] pmf_start(lengths, table, e, j) && freqs@[len_sum(lengths, e)
                    + j] == pmf_entry(lengths, table, e, j),
        decreases descs@.len() - d,
    {
        proof {
            lemma_len_sum_mono(lengths, d as int + 1, lengths.len() as int);
        }
        let sentinel: i32 = descs[d].bypass_sentinel;
        let mut start: u64 = 0;
        let mut i: i32 = 0;
        let ghost base: int = pmf_cursor as int;
        while i <= sentinel
            invariant
                max_freq == pow2(symbol_bits as nat),
                max_freq <= 0x8000_0000,
                lengths == pmf_lengths@,
                table == pmf_table@,
                lengths_cover(lengths, table.len()),
                descs@.len() == lengths.len(),
                d < descs@.len(),
                sentinel == lengths[d as int] - 1,
                base == len_sum(lengths, d as int),
                base + lengths[d as int] <= table.len(),
                0 <= i <= sentinel + 1,
                pmf_cursor == base + i,
                start == cum(table, base, i as int),
                start <= max_freq,
                starts@.len() == pmf_cursor,
                freqs@.len() == pmf_cursor,
                forall|j: int|
                    0 <= j < i ==> #[trigger] pmf_entry(lengths, table, d as int, j) > 0
                        && pmf_start(lengths, table, d as int, j) + pmf_entry(lengths, table, d as int, j)
                        <= pow2(symbol_bits as nat),
                forall|e: int, j: int|
                    0 <= e < d && 0 <= j < lengths[e] ==> #[trigger] pmf_entry(lengths, table, e, j)
                        > 0 && pmf_start(lengths, table, e, j) + pmf_entry(lengths, table, e, j)
                        <= pow2(symbol_bits as nat),
                forall|e: int, j: int|
                    0 <= e < d && 0 <= j < lengths[e] ==> starts@[len_sum(lengths, e) + j]
                        == #[trigger] pmf_start(lengths, table, e, j) && freqs@[len_sum(lengths, e)
                        + j] == pmf_entry(lengths, table, e, j),
                forall|j: int|
                    0 <= j < i ==> starts@[base + j] == #[trigger] pmf_start(
                        lengths,
                        table,
                        d as int,
                        j,
                    ) && freqs@[base + j] == pmf_entry(lengths, table, d as int, j),
            decreases sentinel + 1 - i,
        {
            let entry: i32 = pmf_table[pmf_cursor];
            if entry <= 0 || entry as u64 > max_freq - start {
                proof {
                    assert(pmf_entry(lengths, table, d as int, i as int) == entry);
                    assert(pmf_start(lengths, table, d as int, i as int) == start);
                    assert(!freqs_ok(lengths, table, symbol_bits as nat));
                }
                return Err(EntropyError::InvalidPmf);
            }
            let freq: u64 = entry as u64;
            proof {
                assert(pmf_entry(lengths, table, d as int, i as int) == entry);
                assert(pmf_start(lengths, table, d as int, i as int) == start);
            }
            let ghost s0 = starts@;
            let ghost f0 = freqs@;
            starts.push(start as u32);
            freqs.push(freq as u32);
            proof {
                assert forall|e: int, j: int|
                    0 <= e < d && 0 <= j < lengths[e] implies starts@[len_sum(lengths, e) + j]
                    == #[trigger] pmf_start(lengths, table, e, j) && freqs@[len_sum(lengths, e)
                    + j] == pmf_entry(lengths, table, e, j) by {
                    lemma_len_sum_entry(lengths, e, j, d as int);
                    assert(starts@[len_sum(lengths, e) + j] == s0[len_sum(lengths, e) + j]);
                    assert(freqs@[len_sum(lengths, e) + j] == f0[len_sum(lengths, e) + j]);
                }
                assert forall|j: int| 0 <= j < i + 1 implies starts@[base + j] == #[trigger] pmf_start(
                    lengths,
                    table,
                    d as int,
                    j,
                ) && freqs@[base + j] == pmf_entry(lengths, table, d as int, j) by {
                    if j < i {
                        lemma_len_sum_nonneg(lengths, d as int);
                        assert(starts@[base + j] == s0[base + j]);
                        assert(freqs@[base + j] == f0[base + j]);
                    }
                }
            }
            pmf_cursor += 1;
            start += freq;
            i += 1;
        }
        proof {
            assert(len_sum(lengths, d as int + 1) == base + lengths[d as int]);
            assert forall|e: int, j: int|
                0 <= e < d + 1 && 0 <= j < lengths[e] implies #[trigger] pmf_entry(
                lengths,
                table,
                e,
                j,
            ) > 0 && pmf_start(lengths, table, e, j) + pmf_entry(lengths, table, e, j) <= pow2(
                symbol_bits as nat,
            ) by {
                if e == d {
                    assert(0 <= j < i);
                }
            }
            assert forall|e: int, j: int|
                0 <= e < d + 1 && 0 <= j < lengths[e] implies starts@[len_sum(lengths, e) + j]
                == #[trigger] pmf_start(lengths, table, e, j) && freqs@[len_sum(lengths, e) + j]
                == pmf_entry(lengths, table, e, j) by {
                if e == d {
                    assert(0 <= j < i);
                }
            }
        }
        d += 1;
    }
    Ok((starts, freqs))
}

} // verus!
