//! Cases of the PMF-level differential courts: a PMF layout and a batch of
//! (distribution index, value) elements. The native side codes each
//! element's symbol with the prepared raw encoder, last element first,
//! using the bypass sentinel for out-of-range values (without a bypass
//! payload).
use crate::casefile::{sha256, sha_hex, InputHashes};
use crate::error::RawRansError;
use crate::oracle::{hash_i32_array, i32s_le_bytes};
use crate::text::{dec_chars, decimal, entropy_error_text, join, raw_error_text};
use crate::entropy::{encode_bytes, model_of, EntropyEncoder, EntropyError};
use crate::pmf::pmf_check;
use crate::variant::{Rans64, RansByte, RansVariant};
use crate::verdict::hashes_are;
use crate::wire::{i32_array_wire, push_i32_array, push_u32, u32_le};
use crate::Freq;
use vstd::string::*;
use crate::entropy::{
    byte_coded, byte_message, lemma_byte_coded_push, lemma_r64_coded_push, r64_coded, r64_message,
};
use crate::pmf::len_sum;
use crate::raw_64::{r64_encode_all, r64_lower, Rans64EncSymbol, Rans64Encoder};
use crate::raw_byte::{
    byte_encode_all, byte_lower, check_symbol, check_symbol_spec, RansByteEncSymbol, RansByteEncoder, RawOp,
};
use crate::raw_cases::{max_scale, max_scale_of, variant_message};
use crate::sink::VecSink;
use crate::stream::units_to_le_bytes;
use vstd::prelude::*;

verus! {

/// The distribution of an element: its (non-negative) index clamped to the
/// last of `n` distributions.
pub open spec fn clamp_dist(idx: i32, n: nat) -> int {
    if idx as int > n - 1 {
        n - 1
    } else {
        idx as int
    }
}

/// The symbol of an offset value in a distribution of `length` entries:
/// the value itself when in range, else the bypass sentinel `length - 1`.
pub open spec fn sym_index(v: int, length: int) -> int {
    if v < 0 || v >= length - 1 {
        length - 1
    } else {
        v
    }
}

/// Sum of `k` table entries from `base`, each read as a 32-bit unsigned.
pub open spec fn ucum(table: Seq<i32>, base: int, k: int) -> nat
    decreases k,
{
    if k <= 0 {
        0
    } else {
        ucum(table, base, k - 1) + (table[base + k - 1] as u32) as nat
    }
}

/// The `(start, freq)` of an element: the cumulative frequency and the
/// frequency of its symbol, or `InvalidParameters` when the symbol lies
/// past the end of the table.
pub open spec fn planned_spec(
    lengths: Seq<i32>,
    offsets: Seq<i32>,
    table: Seq<i32>,
    idx: i32,
    value: i32,
) -> Result<(u32, u32), RawRansError> {
    let d = clamp_dist(idx, lengths.len());
    let s = sym_index(value + offsets[d], lengths[d] as int);
    let base = len_sum(lengths, d);
    if base + s >= table.len() {
        Err(RawRansError::InvalidParameters)
    } else {
        Ok((ucum(table, base, s) as u32, table[base + s] as u32))
    }
}

/// An element can be planned without an arithmetic or index fault: the
/// distribution exists with a positive length after non-negative ones, its
/// offset exists, the offset value fits, positions fit, and a symbol
/// inside the table has a cumulative frequency that fits 32 bits.
pub open spec fn element_ok(lengths: Seq<i32>, offsets: Seq<i32>, table: Seq<i32>, idx: i32, value: i32) -> bool {
    let d = clamp_dist(idx, lengths.len());
    let s = sym_index(value + offsets[d], lengths[d] as int);
    &&& 1 <= lengths.len() <= i32::MAX
    &&& d < offsets.len()
    &&& lengths[d] >= 1
    &&& forall|j: int| 0 <= j < d ==> #[trigger] lengths[j] >= 0
    &&& i32::MIN <= value + offsets[d] <= i32::MAX
    &&& len_sum(lengths, d) + lengths[d] <= usize::MAX
    &&& len_sum(lengths, d) + s < table.len() ==> ucum(table, len_sum(lengths, d), s) <= u32::MAX
}

/// The elements `0..k`, processed from `k - 1` down: the operations in
/// coding order, or the first error met (a symbol past the table, or a
/// symbol the prepared constructor rejects at `sb` with largest scale `m`).
pub open spec fn plan_down(
    lengths: Seq<i32>,
    offsets: Seq<i32>,
    table: Seq<i32>,
    indices: Seq<i32>,
    values: Seq<i32>,
    sb: u32,
    m: nat,
    k: int,
) -> Result<Seq<RawOp>, RawRansError>
    decreases k,
{
    if k <= 0 {
        Ok(Seq::empty())
    } else if indices[k - 1] < 0 {
        plan_down(lengths, offsets, table, indices, values, sb, m, k - 1)
    } else {
        match planned_spec(lengths, offsets, table, indices[k - 1], values[k - 1]) {
            Err(e) => Err(e),
            Ok((start, freq)) => match check_symbol_spec(start as nat, freq as nat, sb as nat, m) {
                Err(e) => Err(e),
                Ok(_) => match plan_down(lengths, offsets, table, indices, values, sb, m, k - 1) {
                    Err(e) => Err(e),
                    Ok(rest) => Ok(seq![(start as nat, freq as nat, sb as nat, true)] + rest),
                },
            },
        }
    }
}

/// Every element processed before the first error can be planned (see
/// `element_ok`); `out_of_table_faults` asks, in addition, that no such
/// element's symbol lies past the table.
pub open spec fn plan_safe(
    lengths: Seq<i32>,
    offsets: Seq<i32>,
    table: Seq<i32>,
    indices: Seq<i32>,
    values: Seq<i32>,
    sb: u32,
    m: nat,
    k: int,
    out_of_table_faults: bool,
) -> bool
    decreases k,
{
    if k <= 0 {
        true
    } else if indices[k - 1] < 0 {
        plan_safe(lengths, offsets, table, indices, values, sb, m, k - 1, out_of_table_faults)
    } else {
        &&& k - 1 < values.len()
        &&& element_ok(lengths, offsets, table, indices[k - 1], values[k - 1])
        &&& match planned_spec(lengths, offsets, table, indices[k - 1], values[k - 1]) {
            Err(_) => !out_of_table_faults,
            Ok((start, freq)) => match check_symbol_spec(start as nat, freq as nat, sb as nat, m) {
                Err(_) => true,
                Ok(_) => plan_safe(
                    lengths,
                    offsets,
                    table,
                    indices,
                    values,
                    sb,
                    m,
                    k - 1,
                    out_of_table_faults,
                ),
            },
        }
    }
}

/// The native encoding of a PMF batch with a variant code: the variant's
/// message of the planned operations, or the first error.
pub open spec fn plan_encode_spec(
    variant: u32,
    sb: u32,
    lengths: Seq<i32>,
    offsets: Seq<i32>,
    table: Seq<i32>,
    indices: Seq<i32>,
    values: Seq<i32>,
) -> Result<Seq<u8>, RawRansError> {
    if variant != 0 && variant != 1 {
        Err(RawRansError::InvalidParameters)
    } else {
        match plan_down(lengths, offsets, table, indices, values, sb, max_scale_of(variant), indices.len() as int) {
            Err(e) => Err(e),
            Ok(ops) => Ok(variant_message(variant, ops)),
        }
    }
}

/// The prefix sums of non-negative lengths grow.
proof fn lemma_len_sum_grows(lengths: Seq<i32>, a: int, b: int)
    requires
        0 <= a <= b <= lengths.len(),
        forall|j: int| 0 <= j < b ==> #[trigger] lengths[j] >= 0,
    ensures
        0 <= len_sum(lengths, a) <= len_sum(lengths, b),
    decreases b,
{
    if b > 0 {
        if a < b {
            lemma_len_sum_grows(lengths, a, b - 1);
        } else {
            lemma_len_sum_grows(lengths, 0, b - 1);
        }
        assert(lengths[b - 1] >= 0);
    }
}

/// The partial sums of `ucum` grow.
proof fn lemma_ucum_grows(table: Seq<i32>, base: int, a: int, b: int)
    requires
        0 <= a <= b,
    ensures
        ucum(table, base, a) <= ucum(table, base, b),
    decreases b,
{
    if b > a {
        lemma_ucum_grows(table, base, a, b - 1);
    }
}

/// Whether an element can be planned without a fault (see `element_ok`).
fn element_is_ok(lengths: &[i32], offsets: &[i32], table: &[i32], idx: i32, value: i32) -> (b: bool)
    requires
        idx >= 0,
    ensures
        b == element_ok(lengths@, offsets@, table@, idx, value),
{
    let n: usize = lengths.len();
    if n < 1 || n > 0x7fff_ffff {
        return false;
    }
    let last: i32 = (n - 1) as i32;
    let d: usize = if idx > last {
        last as usize
    } else {
        idx as usize
    };
    assert(d as int == clamp_dist(idx, lengths@.len()));
    if d >= offsets.len() || lengths[d] < 1 {
        return false;
    }
    let mut sum: u64 = 0;
    let mut j: usize = 0;
    while j < d
        invariant
            d < lengths@.len() <= 0x7fff_ffff,
            j <= d,
            d as int == clamp_dist(idx, lengths@.len()),
            forall|q: int| 0 <= q < j ==> #[trigger] lengths@[q] >= 0,
            sum == len_sum(lengths@, j as int),
            sum <= j * 0x7fff_ffff,
        decreases d - j,
    {
        if lengths[j] < 0 {
            proof {
                assert(!(lengths@[j as int] >= 0));
            }
            return false;
        }
        sum = sum + lengths[j] as u64;
        j += 1;
    }
    let v: i64 = value as i64 + offsets[d] as i64;
    if v < -0x8000_0000 || v > 0x7fff_ffff {
        return false;
    }
    let length: u64 = lengths[d] as u64;
    if sum + length > usize::MAX as u64 {
        return false;
    }
    let s: u64 = if v < 0 || v >= length as i64 - 1 {
        length - 1
    } else {
        v as u64
    };
    assert(s as int == sym_index(value + offsets@[d as int], lengths@[d as int] as int));
    if sum + s >= table.len() as u64 {
        return true;
    }
    let base: usize = sum as usize;
    let su: usize = s as usize;
    let ghost ok: bool = element_ok(lengths@, offsets@, table@, idx, value);
    proof {
        assert(base as int == len_sum(lengths@, d as int));
        assert(ok == (ucum(table@, base as int, s as int) <= u32::MAX));
    }
    let mut acc: u64 = 0;
    let mut t: usize = 0;
    let tl: usize = table.len();
    while t < su
        invariant
            su == s,
            tl == table@.len(),
            ok == (ucum(table@, base as int, s as int) <= u32::MAX),
            ok == element_ok(lengths@, offsets@, table@, idx, value),
            base + s < table@.len(),
            t <= s,
            acc == ucum(table@, base as int, t as int),
            acc <= u32::MAX,
        decreases s - t,
    {
        acc = acc + #[verifier::truncate] (table[base + t] as u32) as u64;
        if acc > 0xffff_ffff {
            proof {
                lemma_ucum_grows(table@, base as int, t + 1, s as int);
            }
            return false;
        }
        t += 1;
    }
    true
}

/// Whether the elements `0..k`, processed from `k - 1` down, can be
/// planned without a fault (see `plan_safe`).
fn plan_is_safe(
    lengths: &[i32],
    offsets: &[i32],
    table: &[i32],
    indices: &[i32],
    values: &[i32],
    sb: u32,
    m: u32,
    out_of_table_faults: bool,
) -> (b: bool)
    requires
        m <= 31,
    ensures
        b == plan_safe(
            lengths@,
            offsets@,
            table@,
            indices@,
            values@,
            sb,
            m as nat,
            indices@.len() as int,
            out_of_table_faults,
        ),
{
    let ghost whole = plan_safe(
        lengths@,
        offsets@,
        table@,
        indices@,
        values@,
        sb,
        m as nat,
        indices@.len() as int,
        out_of_table_faults,
    );
    let mut k: usize = indices.len();
    while k > 0
        invariant
            m <= 31,
            k <= indices@.len(),
            whole == plan_safe(
                lengths@,
                offsets@,
                table@,
                indices@,
                values@,
                sb,
                m as nat,
                indices@.len() as int,
                out_of_table_faults,
            ),
            whole == plan_safe(lengths@, offsets@, table@, indices@, values@, sb, m as nat, k as int, out_of_table_faults),
        decreases k,
    {
        let idx: i32 = indices[k - 1];
        if idx >= 0 {
            if k - 1 >= values.len() {
                proof {
                    assert(!plan_safe(lengths@, offsets@, table@, indices@, values@, sb, m as nat, k as int, out_of_table_faults));
                }
                return false;
            }
            let value: i32 = values[k - 1];
            if !element_is_ok(lengths, offsets, table, idx, value) {
                proof {
                    assert(!plan_safe(lengths@, offsets@, table@, indices@, values@, sb, m as nat, k as int, out_of_table_faults));
                }
                return false;
            }
            match planned_symbol(lengths, offsets, table, idx, value) {
                Err(_) => {
                    return !out_of_table_faults;
                },
                Ok((start, freq)) => {
                    if check_symbol(start, freq, sb, m).is_err() {
                        return true;
                    }
                },
            }
        }
        k -= 1;
    }
    true
}

/// Plan one element (see `planned_spec`).
fn planned_symbol(lengths: &[i32], offsets: &[i32], table: &[i32], idx: i32, value: i32) -> (r: Result<
    (u32, u32),
    RawRansError,
>)
    requires
        idx >= 0,
        element_ok(lengths@, offsets@, table@, idx, value),
    ensures
        r == planned_spec(lengths@, offsets@, table@, idx, value),
{
    let num_dist: usize = lengths.len();
    let last: i32 = num_dist as i32 - 1;
    let idx2: i32 = if idx > last {
        last
    } else {
        idx
    };
    let d: usize = idx2 as usize;
    let length: usize = lengths[d] as usize;
    let offset: i32 = offsets[d];
    let v: i32 = value + offset;
    let sym_idx: usize = if v < 0 || v as usize >= length - 1 {
        length - 1
    } else {
        v as usize
    };
    let ghost dd: int = d as int;
    proof {
        lemma_len_sum_grows(lengths@, 0, dd);
    }
    let mut sym_start: usize = 0;
    let mut j: usize = 0;
    while j < d
        invariant
            d < lengths@.len(),
            j <= d,
            forall|q: int| 0 <= q < d ==> #[trigger] lengths@[q] >= 0,
            len_sum(lengths@, d as int) + lengths@[d as int] <= usize::MAX,
            lengths@[d as int] >= 1,
            sym_start == len_sum(lengths@, j as int),
        decreases d - j,
    {
        proof {
            lemma_len_sum_grows(lengths@, j as int + 1, d as int);
            assert(lengths@[j as int] >= 0);
            assert(len_sum(lengths@, j as int + 1) == len_sum(lengths@, j as int) + lengths@[j as int]);
        }
        sym_start += lengths[j] as usize;
        j += 1;
    }
    proof {
        lemma_len_sum_grows(lengths@, 0, dd);
    }
    let table_idx: usize = sym_start + sym_idx;
    if table_idx >= table.len() {
        return Err(RawRansError::InvalidParameters);
    }
    let ghost total: nat = ucum(table@, sym_start as int, sym_idx as int);
    let mut start: u32 = 0;
    let mut t: usize = sym_start;
    while t < table_idx
        invariant
            sym_start <= t <= table_idx,
            table_idx < table@.len(),
            table_idx == sym_start + sym_idx,
            total == ucum(table@, sym_start as int, sym_idx as int),
            total <= u32::MAX,
            start == ucum(table@, sym_start as int, t - sym_start),
        decreases table_idx - t,
    {
        proof {
            lemma_ucum_grows(table@, sym_start as int, t - sym_start + 1, sym_idx as int);
        }
        start += #[verifier::truncate] (table[t] as u32);
        t += 1;
    }
    let freq: u32 = #[verifier::truncate] (table[table_idx] as u32);
    Ok((start, freq))
}

/// Plan the elements `0..k` (last first) and code them on a RansByte
/// encoder with prepared symbols.
pub fn code_plan_byte(
    lengths: &[i32],
    offsets: &[i32],
    table: &[i32],
    indices: &[i32],
    values: &[i32],
    sb: u32,
) -> (r: Result<Vec<u8>, RawRansError>)
    requires
        plan_safe(lengths@, offsets@, table@, indices@, values@, sb, 30, indices@.len() as int, false),
    ensures
        match plan_down(lengths@, offsets@, table@, indices@, values@, sb, 30, indices@.len() as int) {
            Ok(ops) => r is Ok && r->Ok_0@ == byte_message(ops),
            Err(e) => r == Err::<Vec<u8>, RawRansError>(e),
        },
{
    let ghost full = plan_down(lengths@, offsets@, table@, indices@, values@, sb, 30, indices@.len() as int);
    let mut encoder: RansByteEncoder = RansByteEncoder::new(VecSink::new(4096));
    let ghost mut done: Seq<RawOp> = Seq::empty();
    proof {
        assert(byte_encode_all(byte_lower(), Seq::<RawOp>::empty()).0 + Seq::<u8>::empty() =~= Seq::<
            u8,
        >::empty());
        match full {
            Ok(ops) => {
                assert(Seq::<RawOp>::empty() + ops =~= ops);
            },
            Err(_) => {},
        }
    }
    let mut k: usize = indices.len();
    while k > 0
        invariant
            k <= indices@.len(),
            encoder.wf(),
            byte_coded(encoder, byte_lower(), Seq::empty(), done),
            plan_safe(lengths@, offsets@, table@, indices@, values@, sb, 30, k as int, false),
            full == plan_down(lengths@, offsets@, table@, indices@, values@, sb, 30, indices@.len() as int),
            full == match plan_down(lengths@, offsets@, table@, indices@, values@, sb, 30, k as int) {
                Ok(rest) => Ok(done + rest),
                Err(e) => Err::<Seq<RawOp>, RawRansError>(e),
            },
        decreases k,
    {
        let i: usize = k - 1;
        let idx: i32 = indices[i];
        if idx >= 0 {
            let (start, freq) = match planned_symbol(lengths, offsets, table, idx, values[i]) {
                Ok(p) => p,
                Err(e) => {
                    return Err(e);
                },
            };
            let sym: RansByteEncSymbol = match RansByteEncSymbol::try_new(start, freq, sb) {
                Ok(s) => s,
                Err(e) => {
                    return Err(e);
                },
            };
            let ghost e0 = encoder;
            let ghost op: RawOp = (start as nat, freq as nat, sb as nat, true);
            encoder.put(&sym);
            proof {
                lemma_byte_coded_push(e0, encoder, byte_lower(), Seq::empty(), done, op);
                match plan_down(lengths@, offsets@, table@, indices@, values@, sb, 30, i as int) {
                    Ok(rest) => {
                        assert(done + (seq![op] + rest) =~= done.push(op) + rest);
                    },
                    Err(_) => {},
                }
                done = done.push(op);
            }
        }
        k -= 1;
    }
    proof {
        assert(done + Seq::<RawOp>::empty() =~= done);
    }
    encoder.flush();
    let bytes: Vec<u8> = encoder.into_sink().encoded();
    proof {
        assert(byte_encode_all(0x80_0000, done).0 + Seq::<u8>::empty() =~= byte_encode_all(0x80_0000, done).0);
    }
    Ok(bytes)
}

/// Plan the elements `0..k` (last first) and code them on a Rans64 encoder
/// with prepared symbols; the units as little-endian bytes.
pub fn code_plan_64(
    lengths: &[i32],
    offsets: &[i32],
    table: &[i32],
    indices: &[i32],
    values: &[i32],
    sb: u32,
) -> (r: Result<Vec<u8>, RawRansError>)
    requires
        plan_safe(lengths@, offsets@, table@, indices@, values@, sb, 31, indices@.len() as int, false),
    ensures
        match plan_down(lengths@, offsets@, table@, indices@, values@, sb, 31, indices@.len() as int) {
            Ok(ops) => r is Ok && r->Ok_0@ == r64_message(ops),
            Err(e) => r == Err::<Vec<u8>, RawRansError>(e),
        },
{
    let ghost full = plan_down(lengths@, offsets@, table@, indices@, values@, sb, 31, indices@.len() as int);
    let mut encoder: Rans64Encoder = Rans64Encoder::new(VecSink::new(4096));
    let ghost mut done: Seq<RawOp> = Seq::empty();
    proof {
        assert(r64_encode_all(r64_lower(), Seq::<RawOp>::empty()).0 + Seq::<u32>::empty() =~= Seq::<
            u32,
        >::empty());
        match full {
            Ok(ops) => {
                assert(Seq::<RawOp>::empty() + ops =~= ops);
            },
            Err(_) => {},
        }
    }
    let mut k: usize = indices.len();
    while k > 0
        invariant
            k <= indices@.len(),
            encoder.wf(),
            r64_coded(encoder, r64_lower(), Seq::empty(), done),
            plan_safe(lengths@, offsets@, table@, indices@, values@, sb, 31, k as int, false),
            full == plan_down(lengths@, offsets@, table@, indices@, values@, sb, 31, indices@.len() as int),
            full == match plan_down(lengths@, offsets@, table@, indices@, values@, sb, 31, k as int) {
                Ok(rest) => Ok(done + rest),
                Err(e) => Err::<Seq<RawOp>, RawRansError>(e),
            },
        decreases k,
    {
        let i: usize = k - 1;
        let idx: i32 = indices[i];
        if idx >= 0 {
            let (start, freq) = match planned_symbol(lengths, offsets, table, idx, values[i]) {
                Ok(p) => p,
                Err(e) => {
                    return Err(e);
                },
            };
            let sym: Rans64EncSymbol = match Rans64EncSymbol::try_new(start, freq, sb) {
                Ok(s) => s,
                Err(e) => {
                    return Err(e);
                },
            };
            let ghost e0 = encoder;
            let ghost op: RawOp = (start as nat, freq as nat, sb as nat, true);
            encoder.put(&sym);
            proof {
                lemma_r64_coded_push(e0, encoder, r64_lower(), Seq::empty(), done, op);
                match plan_down(lengths@, offsets@, table@, indices@, values@, sb, 31, i as int) {
                    Ok(rest) => {
                        assert(done + (seq![op] + rest) =~= done.push(op) + rest);
                    },
                    Err(_) => {},
                }
                done = done.push(op);
            }
        }
        k -= 1;
    }
    proof {
        assert(done + Seq::<RawOp>::empty() =~= done);
    }
    encoder.flush();
    let units: Vec<u32> = encoder.into_sink().encoded();
    let bytes: Vec<u8> = units_to_le_bytes(units.as_slice());
    proof {
        assert(r64_encode_all(0x8000_0000, done).0 + Seq::<u32>::empty() =~= r64_encode_all(0x8000_0000, done).0);
    }
    Ok(bytes)
}

} // verus!

verus! {

/// The oracle casefile of a PMF batch: variant, symbol bits, bypass bits,
/// then the five length-prefixed arrays.
pub open spec fn pmf_case_wire(
    variant: u32,
    symbol_bits: u32,
    bypass_bits: u32,
    lengths: Seq<i32>,
    offsets: Seq<i32>,
    table: Seq<i32>,
    indices: Seq<i32>,
    values: Seq<i32>,
) -> Seq<u8> {
    u32_le(variant) + u32_le(symbol_bits) + u32_le(bypass_bits) + i32_array_wire(lengths)
        + i32_array_wire(offsets) + i32_array_wire(table) + i32_array_wire(indices) + i32_array_wire(
        values,
    )
}

fn pmf_binary(
    variant: u32,
    symbol_bits: u32,
    bypass_bits: u32,
    lengths: &[i32],
    offsets: &[i32],
    table: &[i32],
    indices: &[i32],
    values: &[i32],
) -> (b: Vec<u8>)
    ensures
        b@ == pmf_case_wire(
            variant,
            symbol_bits,
            bypass_bits,
            lengths@,
            offsets@,
            table@,
            indices@,
            values@,
        ),
{
    let mut buf: Vec<u8> = Vec::new();
    push_u32(&mut buf, variant);
    push_u32(&mut buf, symbol_bits);
    push_u32(&mut buf, bypass_bits);
    push_i32_array(&mut buf, lengths);
    push_i32_array(&mut buf, offsets);
    push_i32_array(&mut buf, table);
    push_i32_array(&mut buf, indices);
    push_i32_array(&mut buf, values);
    proof {
        assert(buf@ =~= pmf_case_wire(
            variant,
            symbol_bits,
            bypass_bits,
            lengths@,
            offsets@,
            table@,
            indices@,
            values@,
        ));
    }
    buf
}

/// Plan and code a PMF batch with a variant code (see `plan_encode_spec`).
fn code_plan(
    variant: u32,
    sb: u32,
    lengths: &[i32],
    offsets: &[i32],
    table: &[i32],
    indices: &[i32],
    values: &[i32],
) -> (r: Result<Vec<u8>, RawRansError>)
    requires
        (variant == 0 || variant == 1) ==> plan_safe(
            lengths@,
            offsets@,
            table@,
            indices@,
            values@,
            sb,
            max_scale_of(variant),
            indices@.len() as int,
            false,
        ),
    ensures
        match plan_encode_spec(variant, sb, lengths@, offsets@, table@, indices@, values@) {
            Ok(b) => r is Ok && r->Ok_0@ == b,
            Err(e) => r == Err::<Vec<u8>, RawRansError>(e),
        },
{
    if variant == 1 {
        code_plan_byte(lengths, offsets, table, indices, values, sb)
    } else if variant == 0 {
        code_plan_64(lengths, offsets, table, indices, values, sb)
    } else {
        Err(RawRansError::InvalidParameters)
    }
}

/// Out-of-table symbols are errors of the plan, not faults: a plan safe
/// with them treated as faults is safe without.
proof fn lemma_plan_safe_relax(
    lengths: Seq<i32>,
    offsets: Seq<i32>,
    table: Seq<i32>,
    indices: Seq<i32>,
    values: Seq<i32>,
    sb: u32,
    m: nat,
    k: int,
)
    requires
        plan_safe(lengths, offsets, table, indices, values, sb, m, k, true),
    ensures
        plan_safe(lengths, offsets, table, indices, values, sb, m, k, false),
    decreases k,
{
    if k > 0 {
        if indices[k - 1] < 0 {
            lemma_plan_safe_relax(lengths, offsets, table, indices, values, sb, m, k - 1);
        } else {
            match planned_spec(lengths, offsets, table, indices[k - 1], values[k - 1]) {
                Err(_) => {},
                Ok((start, freq)) => {
                    if check_symbol_spec(start as nat, freq as nat, sb as nat, m) is Ok {
                        lemma_plan_safe_relax(lengths, offsets, table, indices, values, sb, m, k - 1);
                    }
                },
            }
        }
    }
}

/// A deterministic PMF-level case of the raw differential court.
#[derive(Debug, Clone)]
pub struct DifferentialCase {
    /// Case seed.
    pub seed: u64,
    /// 0 = Rans64, 1 = RansByte.
    pub variant: u32,
    /// Probability precision.
    pub symbol_bits: Freq,
    /// Bypass digit width.
    pub bypass_bits: Freq,
    /// Entries per distribution.
    pub pmf_lengths: Vec<i32>,
    /// Value offset per distribution.
    pub pmf_offsets: Vec<i32>,
    /// Frequencies, distribution after distribution.
    pub pmf_table: Vec<i32>,
    /// Distribution index per element (negative: skipped).
    pub indices: Vec<i32>,
    /// Value per element.
    pub values: Vec<i32>,
}

/// The casefile bytes of a raw differential case.
pub open spec fn differential_case_wire(c: DifferentialCase) -> Seq<u8> {
    pmf_case_wire(
        c.variant,
        c.symbol_bits,
        c.bypass_bits,
        c.pmf_lengths@,
        c.pmf_offsets@,
        c.pmf_table@,
        c.indices@,
        c.values@,
    )
}

/// The native encoding of a raw differential case.
pub open spec fn differential_encode_spec(c: DifferentialCase) -> Result<Seq<u8>, RawRansError> {
    plan_encode_spec(
        c.variant,
        c.symbol_bits,
        c.pmf_lengths@,
        c.pmf_offsets@,
        c.pmf_table@,
        c.indices@,
        c.values@,
    )
}

/// The native encoder can run the case without a fault.
pub open spec fn differential_encodable(c: DifferentialCase) -> bool {
    (c.variant == 0 || c.variant == 1) ==> plan_safe(
        c.pmf_lengths@,
        c.pmf_offsets@,
        c.pmf_table@,
        c.indices@,
        c.values@,
        c.symbol_bits,
        max_scale_of(c.variant),
        c.indices@.len() as int,
        false,
    )
}

impl DifferentialCase {
    /// Whether the native encoder can take the case (see
    /// `differential_encodable`).
    pub fn is_encodable(&self) -> (b: bool)
        ensures
            b == differential_encodable(*self),
    {
        if self.variant == 0 || self.variant == 1 {
            plan_is_safe(
                self.pmf_lengths.as_slice(),
                self.pmf_offsets.as_slice(),
                self.pmf_table.as_slice(),
                self.indices.as_slice(),
                self.values.as_slice(),
                self.symbol_bits,
                max_scale(self.variant),
                false,
            )
        } else {
            true
        }
    }

    /// Serialise to the oracle casefile format (see `pmf_case_wire`).
    pub fn to_binary(&self) -> (b: Vec<u8>)
        ensures
            b@ == differential_case_wire(*self),
    {
        pmf_binary(
            self.variant,
            self.symbol_bits,
            self.bypass_bits,
            self.pmf_lengths.as_slice(),
            self.pmf_offsets.as_slice(),
            self.pmf_table.as_slice(),
            self.indices.as_slice(),
            self.values.as_slice(),
        )
    }

    /// Encode natively with prepared symbols, last element first (see
    /// `plan_encode_spec`): the variant's message, units as little-endian
    /// bytes.
    pub fn rust_encode(&self) -> (r: Result<Vec<u8>, RawRansError>)
        requires
            differential_encodable(*self),
        ensures
            match differential_encode_spec(*self) {
                Ok(b) => r is Ok && r->Ok_0@ == b,
                Err(e) => r == Err::<Vec<u8>, RawRansError>(e),
            },
    {
        code_plan(
            self.variant,
            self.symbol_bits,
            self.pmf_lengths.as_slice(),
            self.pmf_offsets.as_slice(),
            self.pmf_table.as_slice(),
            self.indices.as_slice(),
            self.values.as_slice(),
        )
    }
}

/// A deterministic case of the entropy differential court.
#[derive(Debug, Clone)]
pub struct EntropyCase {
    /// Case seed.
    pub seed: u64,
    /// 0 = Rans64, 1 = RansByte.
    pub variant: u32,
    /// Probability precision.
    pub symbol_bits: u32,
    /// Bypass digit width.
    pub bypass_bits: u32,
    /// Entries per distribution.
    pub pmf_lengths: Vec<i32>,
    /// Value offset per distribution.
    pub pmf_offsets: Vec<i32>,
    /// Frequencies, distribution after distribution.
    pub pmf_table: Vec<i32>,
    /// Distribution index per element (negative: skipped).
    pub indices: Vec<i32>,
    /// Value per element.
    pub values: Vec<i32>,
}

/// The casefile bytes of an entropy case.
pub open spec fn entropy_case_wire(c: EntropyCase) -> Seq<u8> {
    pmf_case_wire(
        c.variant,
        c.symbol_bits,
        c.bypass_bits,
        c.pmf_lengths@,
        c.pmf_offsets@,
        c.pmf_table@,
        c.indices@,
        c.values@,
    )
}

/// The partial native encoder can run the case without a fault (a symbol
/// past the table faults here).
pub open spec fn entropy_partial_encodable(c: EntropyCase) -> bool {
    (c.variant == 0 || c.variant == 1) ==> plan_safe(
        c.pmf_lengths@,
        c.pmf_offsets@,
        c.pmf_table@,
        c.indices@,
        c.values@,
        c.symbol_bits,
        max_scale_of(c.variant),
        c.indices@.len() as int,
        true,
    )
}

/// The variant named by a code (`1` RansByte, otherwise Rans64).
pub open spec fn code_variant(code: u32) -> RansVariant {
    if code == 1 {
        RansVariant::RansByte
    } else {
        RansVariant::Rans64
    }
}

/// The status and output of the native entropy encoder on a case: `ok`
/// and the encoded message; `native_error: ` and the debug text of the
/// error that initialisation or encoding reports; or an unknown variant.
pub open spec fn entropy_encode_spec(c: EntropyCase) -> (Seq<char>, Seq<u8>) {
    let v = code_variant(c.variant);
    if c.variant != 0 && c.variant != 1 {
        ("native_error: unknown variant "@ + dec_chars(c.variant as nat), Seq::empty())
    } else {
        match pmf_check(
            c.pmf_lengths@,
            c.pmf_offsets@,
            c.pmf_table@,
            c.symbol_bits as nat,
            c.bypass_bits as nat,
            v,
        ) {
            Err(e) => ("native_error: "@ + entropy_error_text(e), Seq::empty()),
            Ok(_) => match encode_bytes(
                Some(
                    model_of(
                        c.pmf_lengths@,
                        c.pmf_offsets@,
                        c.pmf_table@,
                        c.symbol_bits as nat,
                        c.bypass_bits as nat,
                    ),
                ),
                c.indices@,
                c.values@,
                v,
            ) {
                Ok(b) => ("ok"@, b),
                Err(e) => ("native_error: "@ + entropy_error_text(e), Seq::empty()),
            },
        }
    }
}

/// The status and output of the partial native encoder: `ok` and the
/// message; `native_error: ` and the error's debug text; or an unknown
/// variant.
pub open spec fn entropy_partial_spec(c: EntropyCase) -> (Seq<char>, Seq<u8>) {
    if c.variant != 0 && c.variant != 1 {
        ("native_error: unknown variant "@ + dec_chars(c.variant as nat), Seq::empty())
    } else {
        match plan_encode_spec(
            c.variant,
            c.symbol_bits,
            c.pmf_lengths@,
            c.pmf_offsets@,
            c.pmf_table@,
            c.indices@,
            c.values@,
        ) {
            Ok(b) => ("ok"@, b),
            Err(e) => ("native_error: "@ + raw_error_text(e), Seq::empty()),
        }
    }
}

impl EntropyCase {
    /// Whether the partial native encoder can take the case (see
    /// `entropy_partial_encodable`).
    pub fn is_encodable(&self) -> (b: bool)
        ensures
            b == entropy_partial_encodable(*self),
    {
        if self.variant == 0 || self.variant == 1 {
            plan_is_safe(
                self.pmf_lengths.as_slice(),
                self.pmf_offsets.as_slice(),
                self.pmf_table.as_slice(),
                self.indices.as_slice(),
                self.values.as_slice(),
                self.symbol_bits,
                max_scale(self.variant),
                true,
            )
        } else {
            true
        }
    }

    /// Serialise to the oracle casefile format (see `pmf_case_wire`).
    pub fn to_binary(&self) -> (b: Vec<u8>)
        ensures
            b@ == entropy_case_wire(*self),
    {
        pmf_binary(
            self.variant,
            self.symbol_bits,
            self.bypass_bits,
            self.pmf_lengths.as_slice(),
            self.pmf_offsets.as_slice(),
            self.pmf_table.as_slice(),
            self.indices.as_slice(),
            self.values.as_slice(),
        )
    }

    /// Hash of the casefile.
    pub fn input_hash(&self) -> (s: String)
        ensures
            s@ == sha_hex(entropy_case_wire(*self)),
    {
        let b: Vec<u8> = self.to_binary();
        sha256(b.as_slice())
    }

    /// Hashes of the canonical little-endian bytes of each array.
    pub fn input_hashes(&self) -> (h: InputHashes)
        ensures
            hashes_are(
                h,
                sha_hex(i32s_le_bytes(self.pmf_lengths@)),
                sha_hex(i32s_le_bytes(self.pmf_offsets@)),
                sha_hex(i32s_le_bytes(self.pmf_table@)),
                sha_hex(i32s_le_bytes(self.indices@)),
                sha_hex(i32s_le_bytes(self.values@)),
            ),
    {
        InputHashes {
            pmf_lengths_sha256: hash_i32_array(self.pmf_lengths.as_slice()),
            pmf_offsets_sha256: hash_i32_array(self.pmf_offsets.as_slice()),
            pmf_table_sha256: hash_i32_array(self.pmf_table.as_slice()),
            indices_sha256: hash_i32_array(self.indices.as_slice()),
            values_sha256: hash_i32_array(self.values.as_slice()),
        }
    }

    /// Native encode with the entropy encoder of the case's variant,
    /// bypass payloads included (see `entropy_encode_spec`).
    pub fn rust_encode(&self) -> (r: (String, Vec<u8>))
        ensures
            r.0@ == entropy_encode_spec(*self).0,
            r.1@ == entropy_encode_spec(*self).1,
    {
        if self.variant != 0 && self.variant != 1 {
            let mut s: String = String::from_str("native_error: unknown variant ");
            s.append(decimal(self.variant as u64).as_str());
            return (s, Vec::new());
        }
        let mut buf: Vec<u8> = Vec::new();
        let r: Result<(), EntropyError> = if self.variant == 1 {
            let mut enc: EntropyEncoder<RansByte> = EntropyEncoder::new();
            match enc.initialize(
                self.pmf_lengths.as_slice(),
                self.pmf_offsets.as_slice(),
                self.pmf_table.as_slice(),
                self.symbol_bits,
                self.bypass_bits,
            ) {
                Err(e) => Err(e),
                Ok(()) => enc.encode(self.indices.as_slice(), self.values.as_slice(), &mut buf),
            }
        } else {
            let mut enc: EntropyEncoder<Rans64> = EntropyEncoder::new();
            match enc.initialize(
                self.pmf_lengths.as_slice(),
                self.pmf_offsets.as_slice(),
                self.pmf_table.as_slice(),
                self.symbol_bits,
                self.bypass_bits,
            ) {
                Err(e) => Err(e),
                Ok(()) => enc.encode(self.indices.as_slice(), self.values.as_slice(), &mut buf),
            }
        };
        proof {
            assert(Seq::<u8>::empty() + buf@ =~= buf@);
        }
        match r {
            Ok(()) => (String::from_str("ok"), buf),
            Err(e) => (join("native_error: ", e.describe().as_str()), Vec::new()),
        }
    }

    /// Partial native encode: every element's symbol (the bypass sentinel
    /// for out-of-range values, without a bypass payload), last element
    /// first (see `entropy_partial_spec`).
    pub fn rust_encode_partial(&self) -> (r: (String, Vec<u8>))
        requires
            entropy_partial_encodable(*self),
        ensures
            r.0@ == entropy_partial_spec(*self).0,
            r.1@ == entropy_partial_spec(*self).1,
    {
        if self.variant != 0 && self.variant != 1 {
            let mut s: String = String::from_str("native_error: unknown variant ");
            s.append(decimal(self.variant as u64).as_str());
            return (s, Vec::new());
        }
        proof {
            lemma_plan_safe_relax(
                self.pmf_lengths@,
                self.pmf_offsets@,
                self.pmf_table@,
                self.indices@,
                self.values@,
                self.symbol_bits,
                max_scale_of(self.variant),
                self.indices@.len() as int,
            );
        }
        match code_plan(
            self.variant,
            self.symbol_bits,
            self.pmf_lengths.as_slice(),
            self.pmf_offsets.as_slice(),
            self.pmf_table.as_slice(),
            self.indices.as_slice(),
            self.values.as_slice(),
        ) {
            Ok(b) => (String::from_str("ok"), b),
            Err(e) => (join("native_error: ", e.describe().as_str()), Vec::new()),
        }
    }
}

} // verus!
