//! The entropy coder's central law: whenever encoding succeeds, decoding
//! the message gives back every value (and 0 for skipped elements),
//! consuming the whole message and ending at the lower bound.
use crate::entropy::{
    batch_run, bypass_digits, bypass_max, bypass_ops, bypass_symbol, bypass_value, bytes_le_units, byte_adv,
    byte_message, dec_bypass, dec_count, dec_digits, dec_elem, dec_run, decode_spec, elem_ops, elem_plan,
    encode_bytes, find_entry, lemma_bypass_digits_bound, lemma_entry_valid, lemma_start_strict, model_ok,
    r64_adv, r64_message, sym_op, unit_op, unit_read, units_le_bytes, EntropyModel,
};
use crate::entropy::{batch_result, EntropyError};
use crate::pmf::{dist_of, pmf_entry, pmf_start};
use crate::raw_64::{
    lemma_r64_message_roundtrip, r64_upper, r64_decode_all, r64_encode_all, r64_flush_units, r64_lower,
};
use crate::raw_byte::{
    all_valid, byte_upper, byte_decode_all, byte_encode_all, byte_lower, le_bytes4,
    lemma_byte_message_roundtrip, valid_symbol, RawOp,
};
use crate::stream::{stream_at_eof, stream_decode_spec, stream_start};
use crate::variant::RansVariant;
use vstd::arithmetic::div_mod::*;
use vstd::arithmetic::power2::*;
use vstd::prelude::*;

verus! {

/// Decode operations from the last to the first with an advance function:
/// each slot must lie in its operation's range.
pub open spec fn ops_decode(
    adv: spec_fn(nat, nat, nat, nat, nat) -> Option<(nat, nat)>,
    x: nat,
    ops: Seq<RawOp>,
    pos: nat,
) -> Option<(nat, nat)>
    decreases ops.len(),
{
    if ops.len() == 0 {
        Some((x, pos))
    } else {
        let op = ops.last();
        if op.0 <= x % pow2(op.2) < op.0 + op.1 {
            match adv(x, op.0, op.1, op.2, pos) {
                Some((x2, p2)) => ops_decode(adv, x2, ops.drop_last(), p2),
                None => None,
            }
        } else {
            None
        }
    }
}

/// The values a decode gives back: each value, or 0 for a skipped element.
pub open spec fn expected_values(indices: Seq<i32>, values: Seq<i32>) -> Seq<i32> {
    Seq::new(indices.len(), |i: int| if indices[i] < 0 { 0i32 } else { values[i] })
}

proof fn lemma_byte_decode_all_is(x: nat, ops: Seq<RawOp>, data: Seq<u8>, pos: nat)
    ensures
        byte_decode_all(x, ops, data, pos) == ops_decode(byte_adv(data), x, ops, pos),
    decreases ops.len(),
{
    if ops.len() > 0 {
        let op = ops.last();
        if op.0 <= x % pow2(op.2) < op.0 + op.1 {
            match byte_adv(data)(x, op.0, op.1, op.2, pos) {
                Some((x2, p2)) => lemma_byte_decode_all_is(x2, ops.drop_last(), data, p2),
                None => {},
            }
        }
    }
}

proof fn lemma_r64_decode_all_is(x: nat, ops: Seq<RawOp>, data: Seq<u32>, pos: nat)
    ensures
        r64_decode_all(x, ops, data, pos) == ops_decode(r64_adv(data), x, ops, pos),
    decreases ops.len(),
{
    if ops.len() > 0 {
        let op = ops.last();
        if op.0 <= x % pow2(op.2) < op.0 + op.1 {
            match r64_adv(data)(x, op.0, op.1, op.2, pos) {
                Some((x2, p2)) => lemma_r64_decode_all_is(x2, ops.drop_last(), data, p2),
                None => {},
            }
        }
    }
}

/// Decoding `a + b` decodes `b` (the later operations) first, then `a`.
proof fn lemma_ops_decode_append(
    adv: spec_fn(nat, nat, nat, nat, nat) -> Option<(nat, nat)>,
    x: nat,
    a: Seq<RawOp>,
    b: Seq<RawOp>,
    pos: nat,
)
    ensures
        ops_decode(adv, x, a + b, pos) == match ops_decode(adv, x, b, pos) {
            Some((x2, p2)) => ops_decode(adv, x2, a, p2),
            None => None,
        },
    decreases b.len(),
{
    if b.len() == 0 {
        assert(a + b =~= a);
    } else {
        let op = b.last();
        assert((a + b).last() == op);
        assert((a + b).drop_last() =~= a + b.drop_last());
        if op.0 <= x % pow2(op.2) < op.0 + op.1 {
            match adv(x, op.0, op.1, op.2, pos) {
                Some((x2, p2)) => lemma_ops_decode_append(adv, x2, a, b.drop_last(), p2),
                None => {},
            }
        }
    }
}

/// `k` "more to follow" markers.
pub open spec fn marker_ops(k: nat, bb: nat) -> Seq<RawOp> {
    Seq::new(k, |i: int| unit_op(bypass_max(bb), bb))
}

/// The digit operations of `ds` (most significant first).
pub open spec fn digit_ops(ds: Seq<nat>, bb: nat) -> Seq<RawOp> {
    Seq::new(ds.len(), |i: int| unit_op(ds[ds.len() - 1 - i], bb))
}

/// The value of digits, least significant first, in base `2^bb`.
pub open spec fn digits_value(ds: Seq<nat>, bb: nat) -> nat
    decreases ds.len(),
{
    if ds.len() == 0 {
        0
    } else {
        ds[0] + pow2(bb) * digits_value(ds.drop_first(), bb)
    }
}

/// Reading back a remainder and `k` markers gives the digit count.
proof fn lemma_count_decode(
    adv: spec_fn(nat, nat, nat, nat, nat) -> Option<(nat, nat)>,
    bb: nat,
    x: nat,
    pos: nat,
    total: nat,
    rem: nat,
    k: nat,
)
    requires
        2 <= bb,
        rem < bypass_max(bb),
        total + k * bypass_max(bb) <= 32,
        ops_decode(adv, x, seq![unit_op(rem, bb)] + marker_ops(k, bb), pos) is Some,
    ensures
        ({
            let (xf, pf) = ops_decode(adv, x, seq![unit_op(rem, bb)] + marker_ops(k, bb), pos)->0;
            dec_count(adv, bb, x, pos, total) == Some((total + k * bypass_max(bb) + rem, xf, pf))
        }),
    decreases k,
{
    lemma_pow2_strictly_increases(0, bb);
    lemma2_to64();
    let mx = bypass_max(bb);
    let ops = seq![unit_op(rem, bb)] + marker_ops(k, bb);
    if k == 0 {
        assert(ops =~= seq![unit_op(rem, bb)]);
        assert(ops.drop_last() =~= Seq::<RawOp>::empty());
        assert(ops.last() == unit_op(rem, bb));
        assert(x % pow2(bb) == rem);
        let (x2, p2) = adv(x, rem, 1, bb, pos)->0;
        assert(ops_decode(adv, x2, Seq::<RawOp>::empty(), p2) == Some((x2, p2)));
        assert(ops_decode(adv, x, ops, pos) == Some((x2, p2)));
        assert(unit_read(adv, bb, x, pos) == Some((rem, x2, p2)));
        assert(dec_count(adv, bb, x, pos, total) == Some((total + rem, x2, p2)));
        assert(k * mx == 0) by (nonlinear_arith)
            requires
                k == 0,
        ;
    } else {
        let prev = seq![unit_op(rem, bb)] + marker_ops((k - 1) as nat, bb);
        assert(ops.drop_last() =~= prev);
        assert(ops.last() == unit_op(mx, bb));
        assert(x % pow2(bb) == mx);
        let (x2, p2) = adv(x, mx, 1, bb, pos)->0;
        let k1: nat = (k - 1) as nat;
        assert(k * mx == mx + k1 * mx) by (nonlinear_arith)
            requires
                k >= 1,
                k1 == k - 1,
        ;
        assert(total + mx <= 32) by (nonlinear_arith)
            requires
                total + k * mx <= 32,
                k >= 1,
        ;
        lemma_count_decode(adv, bb, x2, p2, total + mx, rem, (k - 1) as nat);
        assert(ops_decode(adv, x, ops, pos) == ops_decode(adv, x2, prev, p2));
        assert(unit_read(adv, bb, x, pos) == Some((mx, x2, p2)));
        let (xf, pf) = ops_decode(adv, x2, prev, p2)->0;
        assert(dec_count(adv, bb, x2, p2, total + mx) == Some((total + mx + k1 * mx + rem, xf, pf)));
        assert(dec_count(adv, bb, x, pos, total) == dec_count(adv, bb, x2, p2, total + mx));
        assert(total + mx + k1 * mx + rem == total + k * mx + rem);
    }
}

/// Reading back digit operations gives the digits' value.
proof fn lemma_digits_decode(
    adv: spec_fn(nat, nat, nat, nat, nat) -> Option<(nat, nat)>,
    bb: nat,
    x: nat,
    pos: nat,
    ds: Seq<nat>,
)
    requires
        forall|i: int| 0 <= i < ds.len() ==> #[trigger] ds[i] < pow2(bb),
        ops_decode(adv, x, digit_ops(ds, bb), pos) is Some,
    ensures
        ({
            let (xf, pf) = ops_decode(adv, x, digit_ops(ds, bb), pos)->0;
            dec_digits(adv, bb, x, pos, ds.len()) == Some((digits_value(ds, bb), xf, pf))
        }),
    decreases ds.len(),
{
    if ds.len() > 0 {
        let rest = ds.drop_first();
        assert(digit_ops(ds, bb).drop_last() =~= digit_ops(rest, bb));
        assert(digit_ops(ds, bb).last() == unit_op(ds[0], bb));
        assert(ds[0] < pow2(bb));
        assert(x % pow2(bb) == ds[0]);
        let (x2, p2) = adv(x, ds[0], 1, bb, pos)->0;
        assert forall|i: int| 0 <= i < rest.len() implies #[trigger] rest[i] < pow2(bb) by {
            assert(rest[i] == ds[i + 1]);
        }
        lemma_digits_decode(adv, bb, x2, p2, rest);
        assert((ds.len() - 1) as nat == rest.len());
    }
}

/// The digits of a value add back up to it.
proof fn lemma_digits_value(v: nat, bb: nat)
    requires
        bb >= 1,
    ensures
        digits_value(bypass_digits(v, bb), bb) == v,
    decreases v,
{
    if v > 0 {
        lemma_pow2_strictly_increases(0, bb);
        lemma2_to64();
        let b = pow2(bb);
        lemma_div_decreases(v as int, b as int);
        lemma_digits_value(v / b, bb);
        let ds = bypass_digits(v, bb);
        assert(ds.drop_first() =~= bypass_digits(v / b, bb));
        lemma_fundamental_div_mod(v as int, b as int);
    }
}

/// Reading back a bypass value's operations gives the value.
proof fn lemma_bypass_decode(
    adv: spec_fn(nat, nat, nat, nat, nat) -> Option<(nat, nat)>,
    bb: nat,
    x: nat,
    pos: nat,
    v: nat,
)
    requires
        2 <= bb <= 31,
        v < 0x1_0000_0000,
        ops_decode(adv, x, bypass_ops(v, bb), pos) is Some,
    ensures
        ({
            let (xf, pf) = ops_decode(adv, x, bypass_ops(v, bb), pos)->0;
            dec_bypass(adv, bb, x, pos) == Some((v, xf, pf))
        }),
{
    lemma2_to64();
    lemma_pow2_strictly_increases(0, bb);
    lemma_pow2_strictly_increases(1, bb);
    let ds = bypass_digits(v, bb);
    let c = ds.len();
    let mx = bypass_max(bb);
    lemma_bypass_digits_bound(v, bb);
    if c > 0 {
        if (c - 1) * bb >= 32 {
            if (c - 1) * bb > 32 {
                lemma_pow2_strictly_increases(32, ((c - 1) * bb) as nat);
            }
            assert(false);
        }
    }
    assert(c <= 16 && c * bb < 64) by (nonlinear_arith)
        requires
            c == 0 || (c - 1) * bb < 32,
            2 <= bb <= 31,
    ;
    let d_ops = Seq::new(c, |i: int| unit_op(ds[c - 1 - i], bb));
    assert(d_ops == digit_ops(ds, bb));
    let tail = seq![unit_op(c % mx, bb)] + marker_ops(c / mx, bb);
    assert(bypass_ops(v, bb) =~= d_ops + tail);
    lemma_ops_decode_append(adv, x, d_ops, tail, pos);
    lemma_fundamental_div_mod(c as int, mx as int);
    lemma_mod_bound(c as int, mx as int);
    assert((c / mx) * mx <= c) by (nonlinear_arith)
        requires
            c == mx * (c / mx) + c % mx,
            c % mx >= 0,
    ;
    lemma_count_decode(adv, bb, x, pos, 0, c % mx, c / mx);
    let (x2, p2) = ops_decode(adv, x, tail, pos)->0;
    assert((c / mx) * mx + c % mx == c) by (nonlinear_arith)
        requires
            c == mx * (c / mx) + c % mx,
    ;
    lemma_digits_decode(adv, bb, x2, p2, ds);
    lemma_digits_value(v, bb);
}

/// The adjusted value is recovered from its bypass value.
proof fn lemma_bypass_symbol(adjusted: int, sentinel: int)
    requires
        i32::MIN < adjusted <= i32::MAX,
        1 <= sentinel,
        adjusted < 0 || adjusted >= sentinel,
    ensures
        bypass_symbol(bypass_value(adjusted, sentinel), sentinel) == adjusted,
        bypass_value(adjusted, sentinel) < 0x1_0000_0000,
{
}

/// Reading back one element's operations gives its value (0 for a
/// skipped element).
proof fn lemma_elem_decode(
    m: EntropyModel,
    v: RansVariant,
    adv: spec_fn(nat, nat, nat, nat, nat) -> Option<(nat, nat)>,
    index: i32,
    value: i32,
    x: nat,
    pos: nat,
)
    requires
        model_ok(m, v),
        elem_ops(m, index, value) is Some,
        ops_decode(adv, x, elem_ops(m, index, value)->0, pos) is Some,
    ensures
        ({
            let (xf, pf) = ops_decode(adv, x, elem_ops(m, index, value)->0, pos)->0;
            dec_elem(m, adv, index, x, pos) == Some((if index < 0 { 0i32 } else { value }, xf, pf))
        }),
{
    let e = elem_ops(m, index, value)->0;
    if index >= 0 {
        let (d, k, bv) = elem_plan(m, index, value)->0;
        let sentinel = m.lengths[d] - 1;
        let bops = match bv {
            Some(b) => bypass_ops(b, m.bypass_bits),
            None => Seq::<RawOp>::empty(),
        };
        let op = sym_op(m, d, k);
        assert(e == bops + seq![op]);
        lemma_ops_decode_append(adv, x, bops, seq![op], pos);
        assert(seq![op].drop_last() =~= Seq::<RawOp>::empty());
        let st = pmf_start(m.lengths, m.table, d, k);
        let fr = pmf_entry(m.lengths, m.table, d, k);
        let cum = x % pow2(m.symbol_bits);
        lemma_entry_valid(m, v, d, k);
        assert(ops_decode(adv, x, seq![op], pos) is Some);
        assert(seq![op].last() == op);
        assert(st <= cum < st + fr);
        let (x1, p1) = adv(x, st as nat, fr as nat, m.symbol_bits, pos)->0;
        assert(ops_decode(adv, x1, Seq::<RawOp>::empty(), p1) == Some((x1, p1)));
        assert(ops_decode(adv, x, seq![op], pos) == Some((x1, p1)));
        lemma_entry_valid(m, v, d, k);
        if k < sentinel {
            assert(pmf_start(m.lengths, m.table, d, k + 1) == st + fr);
        }
        lemma_find_entry_is(m, d, cum, k, sentinel);
        let adjusted = value + m.offsets[d];
        match bv {
            Some(b) => {
                lemma_bypass_symbol(adjusted, sentinel);
                lemma_bypass_decode(adv, m.bypass_bits, x1, p1, b);
            },
            None => {
                assert(bops + seq![op] =~= seq![op]);
                assert(ops_decode(adv, x1, bops, p1) == Some((x1, p1)));
            },
        }
    }
}

/// `find_entry` at the sentinel picks the entry whose slot holds `cum`.
proof fn lemma_find_entry_is(m: EntropyModel, d: int, cum: nat, k: int, sentinel: int)
    requires
        crate::pmf::freqs_ok(m.lengths, m.table, m.symbol_bits),
        0 <= d < m.lengths.len(),
        sentinel == m.lengths[d] - 1,
        0 <= k <= sentinel,
        pmf_start(m.lengths, m.table, d, k) <= cum,
        k == sentinel || pmf_start(m.lengths, m.table, d, k + 1) > cum,
    ensures
        find_entry(m, d, cum, sentinel) == k,
    decreases sentinel - k,
{
    if k < sentinel {
        if k + 1 < sentinel {
            lemma_start_strict(m, d, k + 1, sentinel);
        }
        lemma_find_entry_shrink(m, d, cum, k, sentinel);
    }
}

proof fn lemma_find_entry_shrink(m: EntropyModel, d: int, cum: nat, k: int, t: int)
    requires
        crate::pmf::freqs_ok(m.lengths, m.table, m.symbol_bits),
        0 <= d < m.lengths.len(),
        0 <= k <= t < m.lengths[d],
        pmf_start(m.lengths, m.table, d, k) <= cum,
        k == t || pmf_start(m.lengths, m.table, d, k + 1) > cum,
    ensures
        find_entry(m, d, cum, t) == k,
    decreases t - k,
{
    if t > k {
        if k + 1 < t {
            lemma_start_strict(m, d, k + 1, t);
        }
        lemma_find_entry_shrink(m, d, cum, k, t - 1);
    } else if k > 0 {
    } else {
    }
}

/// Reading back a batch's operations decodes every element in order.
proof fn lemma_run_decode(
    m: EntropyModel,
    v: RansVariant,
    adv: spec_fn(nat, nat, nat, nat, nat) -> Option<(nat, nat)>,
    indices: Seq<i32>,
    values: Seq<i32>,
    j: nat,
    x: nat,
    pos: nat,
)
    requires
        model_ok(m, v),
        indices.len() == values.len(),
        j <= indices.len(),
        batch_run(m, indices, values, j).1,
        ops_decode(adv, x, batch_run(m, indices, values, j).0, pos) is Some,
    ensures
        dec_run(m, adv, indices.skip(j as int), x, pos) == (
            expected_values(indices, values).skip(j as int),
            ops_decode(adv, x, batch_run(m, indices, values, j).0, pos),
        ),
    decreases indices.len() - j,
{
    let ex = expected_values(indices, values);
    if j == indices.len() {
        assert(indices.skip(j as int) =~= Seq::<i32>::empty());
        assert(ex.skip(j as int) =~= Seq::<i32>::empty());
    } else {
        let prev = batch_run(m, indices, values, j + 1);
        let e = elem_ops(m, indices[j as int], values[j as int])->0;
        assert(batch_run(m, indices, values, j).0 == prev.0 + e);
        lemma_ops_decode_append(adv, x, prev.0, e, pos);
        let (x1, p1) = ops_decode(adv, x, e, pos)->0;
        lemma_elem_decode(m, v, adv, indices[j as int], values[j as int], x, pos);
        lemma_run_decode(m, v, adv, indices, values, j + 1, x1, p1);
        let rest = indices.skip(j as int);
        assert(rest[0] == indices[j as int]);
        assert(rest.drop_first() =~= indices.skip(j + 1 as int));
        assert(ex.skip(j as int) =~= seq![ex[j as int]] + ex.skip(j + 1 as int));
    }
}

proof fn lemma_all_valid_concat(a: Seq<RawOp>, b: Seq<RawOp>, bound: nat)
    requires
        all_valid(a, bound),
        all_valid(b, bound),
    ensures
        all_valid(a + b, bound),
{
    assert forall|i: int| 0 <= i < (a + b).len() implies valid_symbol(
        #[trigger] (a + b)[i].0,
        (a + b)[i].1,
        (a + b)[i].2,
        bound,
    ) by {
        if i < a.len() {
            assert((a + b)[i] == a[i]);
            assert(valid_symbol(a[i].0, a[i].1, a[i].2, bound));
        } else {
            assert((a + b)[i] == b[i - a.len()]);
            assert(valid_symbol(b[i - a.len()].0, b[i - a.len()].1, b[i - a.len()].2, bound));
        }
    }
}

proof fn lemma_bypass_ops_valid(v: nat, bb: nat, bound: nat)
    requires
        2 <= bb <= bound,
    ensures
        all_valid(bypass_ops(v, bb), bound),
{
    lemma_pow2_strictly_increases(0, bb);
    lemma2_to64();
    lemma_bypass_digits_bound(v, bb);
    let ds = bypass_digits(v, bb);
    let c = ds.len();
    let mx = bypass_max(bb);
    let ops = bypass_ops(v, bb);
    lemma_mod_bound(c as int, mx as int);
    assert forall|i: int| 0 <= i < ops.len() implies valid_symbol(
        #[trigger] ops[i].0,
        ops[i].1,
        ops[i].2,
        bound,
    ) by {
        if i < c {
            assert(ops[i] == unit_op(ds[c - 1 - i], bb));
            assert(ds[c - 1 - i] < pow2(bb));
        } else if i == c {
            assert(ops[i] == unit_op(c % mx, bb));
        } else {
            assert(ops[i] == unit_op(mx, bb));
        }
    }
}

/// Every operation of a batch is a valid symbol at `bound` when both
/// precisions are at most `bound`.
proof fn lemma_batch_valid(
    m: EntropyModel,
    v: RansVariant,
    indices: Seq<i32>,
    values: Seq<i32>,
    j: nat,
    bound: nat,
)
    requires
        model_ok(m, v),
        m.symbol_bits <= bound,
        m.bypass_bits <= bound,
    ensures
        all_valid(batch_run(m, indices, values, j).0, bound),
    decreases indices.len() - j,
{
    if j < indices.len() {
        lemma_batch_valid(m, v, indices, values, j + 1, bound);
        let prev = batch_run(m, indices, values, j + 1);
        if prev.1 {
            match elem_ops(m, indices[j as int], values[j as int]) {
                Some(e) => {
                    if indices[j as int] >= 0 {
                        let (d, k, bv) = elem_plan(m, indices[j as int], values[j as int])->0;
                        lemma_entry_valid(m, v, d, k);
                        let op = sym_op(m, d, k);
                        assert(all_valid(seq![op], bound)) by {
                            assert(seq![op][0] == op);
                        }
                        match bv {
                            Some(b) => {
                                lemma_bypass_ops_valid(b, m.bypass_bits, bound);
                                lemma_all_valid_concat(bypass_ops(b, m.bypass_bits), seq![op], bound);
                            },
                            None => {
                                assert(Seq::<RawOp>::empty() + seq![op] =~= seq![op]);
                            },
                        }
                    } else {
                        assert(all_valid(e, bound));
                    }
                    lemma_all_valid_concat(prev.0, e, bound);
                },
                None => {},
            }
        }
    }
}

/// Little-endian units read back from their bytes.
pub proof fn lemma_units_le_bytes(u: Seq<u32>)
    ensures
        units_le_bytes(u).len() == 4 * u.len(),
        bytes_le_units(units_le_bytes(u)) == u,
    decreases u.len(),
{
    if u.len() > 0 {
        let init = u.drop_last();
        lemma_units_le_bytes(init);
        let bi = units_le_bytes(init);
        let last = u.last();
        let b = units_le_bytes(u);
        assert(b == bi + le_bytes4(last as nat));
        assert forall|i: int| 0 <= i < u.len() implies #[trigger] bytes_le_units(b)[i] == u[i] by {
            if i < init.len() {
                assert(b[4 * i] == bi[4 * i]);
                assert(b[4 * i + 1] == bi[4 * i + 1]);
                assert(b[4 * i + 2] == bi[4 * i + 2]);
                assert(b[4 * i + 3] == bi[4 * i + 3]);
                assert(bytes_le_units(bi)[i] == init[i]);
            } else {
                let w: u32 = last;
                assert((w % 256) + ((w / 0x100) % 256) * 0x100 + ((w / 0x1_0000) % 256) * 0x1_0000
                    + ((w / 0x100_0000) % 256) * 0x100_0000 == w) by (bit_vector);
                assert(b[4 * i] == (w % 256) as u8);
                assert(b[4 * i + 1] == ((w / 0x100) % 256) as u8);
                assert(b[4 * i + 2] == ((w / 0x1_0000) % 256) as u8);
                assert(b[4 * i + 3] == ((w / 0x100_0000) % 256) as u8);
            }
        }
        assert(bytes_le_units(b) =~= u);
    } else {
        assert(bytes_le_units(units_le_bytes(u)) =~= u);
    }
}

/// Roundtrip law (RansByte): whenever encoding a batch succeeds and both
/// precisions are at most 23 bits, decoding its message (with or without
/// the end checks) succeeds, reads the whole message, and gives back every
/// value, with 0 for each skipped (negative-index) element.
pub proof fn lemma_entropy_roundtrip_byte(
    m: EntropyModel,
    indices: Seq<i32>,
    values: Seq<i32>,
    need_exhausted: bool,
    need_eof: bool,
)
    requires
        model_ok(m, RansVariant::RansByte),
        m.symbol_bits <= 23,
        m.bypass_bits <= 23,
        encode_bytes(Some(m), indices, values, RansVariant::RansByte) is Ok,
    ensures
        ({
            let bytes = encode_bytes(Some(m), indices, values, RansVariant::RansByte)->Ok_0;
            decode_spec(
                Some(m),
                indices,
                values.len(),
                RansVariant::RansByte,
                bytes,
                need_exhausted,
                need_eof,
            ) == (Ok::<nat, EntropyError>(bytes.len()), expected_values(indices, values))
        }),
{
    let ops = batch_run(m, indices, values, 0).0;
    lemma_batch_valid(m, RansVariant::RansByte, indices, values, 0, 23);
    lemma_byte_message_roundtrip(ops);
    let msg = byte_message(ops);
    let xn = byte_encode_all(byte_lower(), ops).1;
    lemma_byte_decode_all_is(xn, ops, msg, 4);
    lemma_run_decode(m, RansVariant::RansByte, byte_adv(msg), indices, values, 0, xn, 4);
    assert(indices.skip(0) =~= indices);
    assert(expected_values(indices, values).skip(0) =~= expected_values(indices, values));
}

/// Roundtrip law (Rans64): whenever encoding a batch succeeds, decoding its
/// message (with or without the end checks) succeeds, reads every 32-bit
/// unit, and gives back every value, with 0 for each skipped element.
pub proof fn lemma_entropy_roundtrip_64(
    m: EntropyModel,
    indices: Seq<i32>,
    values: Seq<i32>,
    need_exhausted: bool,
    need_eof: bool,
)
    requires
        model_ok(m, RansVariant::Rans64),
        encode_bytes(Some(m), indices, values, RansVariant::Rans64) is Ok,
    ensures
        ({
            let bytes = encode_bytes(Some(m), indices, values, RansVariant::Rans64)->Ok_0;
            &&& bytes.len() % 4 == 0
            &&& decode_spec(
                Some(m),
                indices,
                values.len(),
                RansVariant::Rans64,
                bytes,
                need_exhausted,
                need_eof,
            ) == (Ok::<nat, EntropyError>(bytes.len() / 4), expected_values(indices, values))
        }),
{
    let ops = batch_run(m, indices, values, 0).0;
    lemma_batch_valid(m, RansVariant::Rans64, indices, values, 0, 31);
    lemma_r64_message_roundtrip(ops);
    let (out, xn) = r64_encode_all(r64_lower(), ops);
    let units = r64_flush_units(xn) + out;
    let msg = r64_message(ops);
    assert(msg == units_le_bytes(units));
    lemma_units_le_bytes(units);
    lemma_r64_decode_all_is(xn, ops, units, 2);
    lemma_run_decode(m, RansVariant::Rans64, r64_adv(units), indices, values, 0, xn, 2);
    assert(indices.skip(0) =~= indices);
    assert(expected_values(indices, values).skip(0) =~= expected_values(indices, values));
}

/// The operations a stream session holds after pushing `batches` (model,
/// indices, values) in order.
pub open spec fn batches_ops(batches: Seq<(EntropyModel, Seq<i32>, Seq<i32>)>) -> Seq<RawOp>
    decreases batches.len(),
{
    if batches.len() == 0 {
        Seq::empty()
    } else {
        let b = batches.last();
        batches_ops(batches.drop_last()) + batch_run(b.0, b.1, b.2, 0).0
    }
}

/// The session of an encoder stream after `batches` (model, indices,
/// values) are pushed in order onto a stream with no session, as each push
/// states it: the pushed batch's operations after those already held.
pub open spec fn session_after(batches: Seq<(EntropyModel, Seq<i32>, Seq<i32>)>) -> Option<Seq<RawOp>>
    decreases batches.len(),
{
    if batches.len() == 0 {
        None
    } else {
        let b = batches.last();
        Some(
            match session_after(batches.drop_last()) {
                Some(ops) => ops,
                None => Seq::<RawOp>::empty(),
            } + batch_result(Some(b.0), b.1, b.2).1,
        )
    }
}

/// Pushing batches onto a stream with no session (new, reset, or just
/// flushed) leaves exactly the operations of the multipart message: what
/// a flush then returns depends on the pushed batches alone, so the same
/// pushes after a flush give the same message again.
pub proof fn lemma_session_after_pushes(batches: Seq<(EntropyModel, Seq<i32>, Seq<i32>)>)
    requires
        batches.len() > 0,
        forall|i: int| 0 <= i < batches.len() ==> (#[trigger] batches[i]).1.len() == batches[i].2.len(),
    ensures
        session_after(batches) == Some(batches_ops(batches)),
    decreases batches.len(),
{
    let b = batches.last();
    assert(b == batches[batches.len() - 1]);
    let front = batches.drop_last();
    if front.len() > 0 {
        assert forall|i: int| 0 <= i < front.len() implies (#[trigger] front[i]).1.len() == front[i].2.len() by {
            assert(front[i] == batches[i]);
        }
        lemma_session_after_pushes(front);
    } else {
        assert(Seq::<RawOp>::empty() + batch_run(b.0, b.1, b.2, 0).0 =~= batch_run(b.0, b.1, b.2, 0).0);
        assert(batches_ops(front) =~= Seq::<RawOp>::empty());
    }
}

/// Each batch is valid for the variant, and encodes without error.
pub open spec fn batches_ok(batches: Seq<(EntropyModel, Seq<i32>, Seq<i32>)>, v: RansVariant) -> bool {
    forall|i: int|
        0 <= i < batches.len() ==> {
            let b = #[trigger] batches[i];
            &&& model_ok(b.0, v)
            &&& b.1.len() == b.2.len()
            &&& batch_run(b.0, b.1, b.2, 0).1
            &&& v == RansVariant::RansByte ==> b.0.symbol_bits <= 23 && b.0.bypass_bits <= 23
        }
}

/// Decode the batches of a stream, the last pushed first, each stream
/// decode continuing from the previous one's cursor: the values decoded
/// (in decoding order) and the final cursor, `None` at the first failure.
pub open spec fn stream_decode_all(
    v: RansVariant,
    data: Seq<u8>,
    cursor: Option<(usize, u64)>,
    batches: Seq<(EntropyModel, Seq<i32>, Seq<i32>)>,
) -> Option<(Seq<Seq<i32>>, Option<(usize, u64)>)>
    decreases batches.len(),
{
    if batches.len() == 0 {
        Some((Seq::empty(), cursor))
    } else {
        let b = batches.last();
        let (res, outs, cur) = stream_decode_spec(Some(b.0), v, data, cursor, b.1, b.2.len());
        if res is Ok {
            match stream_decode_all(v, data, cur, batches.drop_last()) {
                Some((vs, c2)) => Some((seq![outs] + vs, c2)),
                None => None,
            }
        } else {
            None
        }
    }
}

/// The values expected back, the last pushed batch first.
pub open spec fn batches_expected(batches: Seq<(EntropyModel, Seq<i32>, Seq<i32>)>) -> Seq<Seq<i32>> {
    Seq::new(
        batches.len(),
        |i: int|
            expected_values(batches[batches.len() - 1 - i].1, batches[batches.len() - 1 - i].2),
    )
}

proof fn lemma_batches_ok_drop_last(batches: Seq<(EntropyModel, Seq<i32>, Seq<i32>)>, v: RansVariant)
    requires
        batches_ok(batches, v),
        batches.len() > 0,
    ensures
        batches_ok(batches.drop_last(), v),
{
    assert forall|i: int| 0 <= i < batches.drop_last().len() implies {
        let b = #[trigger] batches.drop_last()[i];
        &&& model_ok(b.0, v)
        &&& b.1.len() == b.2.len()
        &&& batch_run(b.0, b.1, b.2, 0).1
        &&& v == RansVariant::RansByte ==> b.0.symbol_bits <= 23 && b.0.bypass_bits <= 23
    } by {
        assert(batches.drop_last()[i] == batches[i]);
    }
}

proof fn lemma_batches_valid(batches: Seq<(EntropyModel, Seq<i32>, Seq<i32>)>, v: RansVariant, bound: nat)
    requires
        batches_ok(batches, v),
        v == RansVariant::RansByte ==> bound == 23,
        v == RansVariant::Rans64 ==> bound == 31,
    ensures
        all_valid(batches_ops(batches), bound),
    decreases batches.len(),
{
    if batches.len() == 0 {
    } else {
        lemma_batches_ok_drop_last(batches, v);
        lemma_batches_valid(batches.drop_last(), v, bound);
        let b = batches.last();
        assert(b == batches[batches.len() - 1]);
        lemma_batch_valid(b.0, v, b.1, b.2, 0, bound);
        lemma_all_valid_concat(batches_ops(batches.drop_last()), batch_run(b.0, b.1, b.2, 0).0, bound);
    }
}

proof fn lemma_stream_from_byte(
    data: Seq<u8>,
    cursor: Option<(usize, u64)>,
    batches: Seq<(EntropyModel, Seq<i32>, Seq<i32>)>,
    x0: nat,
    pos: nat,
)
    requires
        batches_ok(batches, RansVariant::RansByte),
        batches.len() > 0,
        byte_lower() <= x0 < byte_upper(),
        data.len() <= usize::MAX,
        pos + byte_encode_all(x0, batches_ops(batches)).0.len() <= data.len(),
        data.subrange(pos as int, pos + byte_encode_all(x0, batches_ops(batches)).0.len() as int)
            == byte_encode_all(x0, batches_ops(batches)).0,
        stream_start(RansVariant::RansByte, data, cursor) == Some(
            (byte_encode_all(x0, batches_ops(batches)).1, pos),
        ),
    ensures
        stream_decode_all(RansVariant::RansByte, data, cursor, batches) == Some(
            (
                batches_expected(batches),
                Some(
                    (
                        (pos + byte_encode_all(x0, batches_ops(batches)).0.len()) as usize,
                        x0 as u64,
                    ),
                ),
            ),
        ),
    decreases batches.len(),
{
    let a = batches.drop_last();
    let b = batches.last();
    assert(b == batches[batches.len() - 1]);
    lemma_batches_ok_drop_last(batches, RansVariant::RansByte);
    let ops_a = batches_ops(a);
    let ops_b = batch_run(b.0, b.1, b.2, 0).0;
    lemma_batches_valid(a, RansVariant::RansByte, 23);
    lemma_batch_valid(b.0, RansVariant::RansByte, b.1, b.2, 0, 23);
    let enc_a = byte_encode_all(x0, ops_a);
    let enc_b = byte_encode_all(enc_a.1, ops_b);
    crate::raw_byte::lemma_byte_encode_all_append(x0, ops_a, ops_b);
    crate::raw_byte::lemma_byte_encode_all_range(x0, ops_a);
    let e = byte_encode_all(x0, batches_ops(batches));
    assert(e == (enc_b.0 + enc_a.0, enc_b.1));
    let pb = pos + enc_b.0.len();
    assert(data.subrange(pos as int, pb as int) =~= enc_b.0) by {
        assert(data.subrange(pos as int, pb as int) =~= data.subrange(pos as int, pos + e.0.len() as int).subrange(
            0,
            enc_b.0.len() as int,
        ));
    }
    crate::raw_byte::lemma_byte_decode_encoded(enc_a.1, ops_b, data, pos);
    lemma_byte_decode_all_is(enc_b.1, ops_b, data, pos);
    lemma_run_decode(b.0, RansVariant::RansByte, byte_adv(data), b.1, b.2, 0, enc_b.1, pos);
    assert(b.1.skip(0) =~= b.1);
    assert(expected_values(b.1, b.2).skip(0) =~= expected_values(b.1, b.2));
    let cur: Option<(usize, u64)> = Some((pb as usize, enc_a.1 as u64));
    assert(stream_decode_spec(Some(b.0), RansVariant::RansByte, data, cursor, b.1, b.2.len()) == (
        Ok::<(), EntropyError>(()),
        expected_values(b.1, b.2),
        cur,
    ));
    if a.len() == 0 {
        assert(ops_a =~= Seq::<RawOp>::empty());
        assert(batches_expected(batches) =~= seq![expected_values(b.1, b.2)] + Seq::<Seq<i32>>::empty());
    } else {
        assert(data.subrange(pb as int, pb + enc_a.0.len() as int) =~= enc_a.0) by {
            assert(data.subrange(pb as int, pb + enc_a.0.len() as int) =~= data.subrange(pos as int, pos + e.0.len() as int).subrange(
                enc_b.0.len() as int,
                e.0.len() as int,
            ));
        }
        assert(stream_start(RansVariant::RansByte, data, cur) == Some((enc_a.1, pb)));
        lemma_stream_from_byte(data, cur, a, x0, pb);
        assert(batches_expected(batches) =~= seq![expected_values(b.1, b.2)] + batches_expected(a));
    }
}

/// Multipart stream law (RansByte): pushing batches (each encoding without
/// error, precisions at most 23 bits) onto a fresh encoder stream and
/// flushing gives a message from which a decoder stream, decoding the
/// batches in reverse push order, gives back every batch's values and
/// then stands at the end of the message.
pub proof fn lemma_stream_roundtrip_byte(batches: Seq<(EntropyModel, Seq<i32>, Seq<i32>)>)
    requires
        batches_ok(batches, RansVariant::RansByte),
        batches.len() > 0,
        byte_message(batches_ops(batches)).len() <= usize::MAX,
    ensures
        session_after(batches) == Some(batches_ops(batches)),
        ({
            let msg = byte_message(batches_ops(batches));
            match stream_decode_all(RansVariant::RansByte, msg, None, batches) {
                Some((vs, cur)) => vs == batches_expected(batches) && stream_at_eof(
                    RansVariant::RansByte,
                    msg,
                    cur,
                ),
                None => false,
            }
        }),
{
    assert forall|i: int| 0 <= i < batches.len() implies (#[trigger] batches[i]).1.len() == batches[i].2.len() by {
        assert(batches_ok(batches, RansVariant::RansByte));
    }
    lemma_session_after_pushes(batches);
    let ops = batches_ops(batches);
    lemma_batches_valid(batches, RansVariant::RansByte, 23);
    let (out, xn) = byte_encode_all(byte_lower(), ops);
    let msg = byte_message(ops);
    crate::raw_byte::lemma_byte_encode_all_range(byte_lower(), ops);
    assert(msg.subrange(0, 4) =~= le_bytes4(xn));
    crate::raw_byte::lemma_byte_flush_init(xn, msg, 0);
    assert(msg.subrange(4, 4 + out.len() as int) =~= out);
    lemma_stream_from_byte(msg, None, batches, byte_lower(), 4);
}

proof fn lemma_stream_from_64(
    data: Seq<u8>,
    cursor: Option<(usize, u64)>,
    batches: Seq<(EntropyModel, Seq<i32>, Seq<i32>)>,
    x0: nat,
    pos: nat,
)
    requires
        batches_ok(batches, RansVariant::Rans64),
        batches.len() > 0,
        r64_lower() <= x0 < r64_upper(),
        data.len() <= usize::MAX,
        data.len() % 4 == 0,
        pos + r64_encode_all(x0, batches_ops(batches)).0.len() <= bytes_le_units(data).len(),
        bytes_le_units(data).subrange(pos as int, pos + r64_encode_all(x0, batches_ops(batches)).0.len() as int)
            == r64_encode_all(x0, batches_ops(batches)).0,
        stream_start(RansVariant::Rans64, data, cursor) == Some(
            (r64_encode_all(x0, batches_ops(batches)).1, pos),
        ),
    ensures
        stream_decode_all(RansVariant::Rans64, data, cursor, batches) == Some(
            (
                batches_expected(batches),
                Some(
                    (
                        (pos + r64_encode_all(x0, batches_ops(batches)).0.len()) as usize,
                        x0 as u64,
                    ),
                ),
            ),
        ),
    decreases batches.len(),
{
    let units = bytes_le_units(data);
    let a = batches.drop_last();
    let b = batches.last();
    assert(b == batches[batches.len() - 1]);
    lemma_batches_ok_drop_last(batches, RansVariant::Rans64);
    let ops_a = batches_ops(a);
    let ops_b = batch_run(b.0, b.1, b.2, 0).0;
    lemma_batches_valid(a, RansVariant::Rans64, 31);
    lemma_batch_valid(b.0, RansVariant::Rans64, b.1, b.2, 0, 31);
    let enc_a = r64_encode_all(x0, ops_a);
    let enc_b = r64_encode_all(enc_a.1, ops_b);
    crate::raw_64::lemma_r64_encode_all_append(x0, ops_a, ops_b);
    crate::raw_64::lemma_r64_encode_all_range(x0, ops_a);
    let e = r64_encode_all(x0, batches_ops(batches));
    assert(e == (enc_b.0 + enc_a.0, enc_b.1));
    let pb = pos + enc_b.0.len();
    assert(units.subrange(pos as int, pb as int) =~= enc_b.0) by {
        assert(units.subrange(pos as int, pb as int) =~= units.subrange(pos as int, pos + e.0.len() as int).subrange(
            0,
            enc_b.0.len() as int,
        ));
    }
    crate::raw_64::lemma_r64_decode_encoded(enc_a.1, ops_b, units, pos);
    lemma_r64_decode_all_is(enc_b.1, ops_b, units, pos);
    lemma_run_decode(b.0, RansVariant::Rans64, r64_adv(units), b.1, b.2, 0, enc_b.1, pos);
    assert(b.1.skip(0) =~= b.1);
    assert(expected_values(b.1, b.2).skip(0) =~= expected_values(b.1, b.2));
    let cur: Option<(usize, u64)> = Some((pb as usize, enc_a.1 as u64));
    assert(stream_decode_spec(Some(b.0), RansVariant::Rans64, data, cursor, b.1, b.2.len()) == (
        Ok::<(), EntropyError>(()),
        expected_values(b.1, b.2),
        cur,
    ));
    if a.len() == 0 {
        assert(ops_a =~= Seq::<RawOp>::empty());
        assert(batches_expected(batches) =~= seq![expected_values(b.1, b.2)] + Seq::<Seq<i32>>::empty());
    } else {
        assert(units.subrange(pb as int, pb + enc_a.0.len() as int) =~= enc_a.0) by {
            assert(units.subrange(pb as int, pb + enc_a.0.len() as int) =~= units.subrange(pos as int, pos + e.0.len() as int).subrange(
                enc_b.0.len() as int,
                e.0.len() as int,
            ));
        }
        assert(stream_start(RansVariant::Rans64, data, cur) == Some((enc_a.1, pb)));
        lemma_stream_from_64(data, cur, a, x0, pb);
        assert(batches_expected(batches) =~= seq![expected_values(b.1, b.2)] + batches_expected(a));
    }
}

/// Multipart stream law (Rans64): pushing batches (each encoding without
/// error) onto a fresh encoder stream and flushing gives a message from
/// which a decoder stream, decoding the batches in reverse push order,
/// gives back every batch's values and then stands at the end of the
/// message.
pub proof fn lemma_stream_roundtrip_64(batches: Seq<(EntropyModel, Seq<i32>, Seq<i32>)>)
    requires
        batches_ok(batches, RansVariant::Rans64),
        batches.len() > 0,
        r64_message(batches_ops(batches)).len() <= usize::MAX,
    ensures
        session_after(batches) == Some(batches_ops(batches)),
        ({
            let msg = r64_message(batches_ops(batches));
            match stream_decode_all(RansVariant::Rans64, msg, None, batches) {
                Some((vs, cur)) => vs == batches_expected(batches) && stream_at_eof(
                    RansVariant::Rans64,
                    msg,
                    cur,
                ),
                None => false,
            }
        }),
{
    assert forall|i: int| 0 <= i < batches.len() implies (#[trigger] batches[i]).1.len() == batches[i].2.len() by {
        assert(batches_ok(batches, RansVariant::Rans64));
    }
    lemma_session_after_pushes(batches);
    let ops = batches_ops(batches);
    lemma_batches_valid(batches, RansVariant::Rans64, 31);
    let (out, xn) = r64_encode_all(r64_lower(), ops);
    let units = r64_flush_units(xn) + out;
    let msg = r64_message(ops);
    assert(msg == units_le_bytes(units));
    lemma_units_le_bytes(units);
    assert(msg.len() % 4 == 0 && msg.len() / 4 == units.len()) by (nonlinear_arith)
        requires
            msg.len() == 4 * units.len(),
    ;
    crate::raw_64::lemma_r64_encode_all_range(r64_lower(), ops);
    assert(units.subrange(0, 2) =~= r64_flush_units(xn));
    crate::raw_64::lemma_r64_flush_init(xn, units, 0);
    assert(units.subrange(2, 2 + out.len() as int) =~= out);
    lemma_stream_from_64(msg, None, batches, r64_lower(), 2);
}

/// `indices` with every index at or beyond `count` replaced by `count - 1`.
pub open spec fn clamp_indices(indices: Seq<i32>, count: nat) -> Seq<i32> {
    Seq::new(indices.len(), |i: int| if indices[i] >= count { (count - 1) as i32 } else { indices[i] })
}

/// The elements of a batch whose index is non-negative, in order.
pub open spec fn coded_elements(indices: Seq<i32>, values: Seq<i32>) -> (Seq<i32>, Seq<i32>)
    decreases indices.len(),
{
    if indices.len() == 0 || values.len() == 0 {
        (Seq::empty(), Seq::empty())
    } else {
        let rest = coded_elements(indices.drop_first(), values.drop_first());
        if indices[0] < 0 {
            rest
        } else {
            (seq![indices[0]] + rest.0, seq![values[0]] + rest.1)
        }
    }
}

proof fn lemma_batch_run_clamp(m: EntropyModel, indices: Seq<i32>, values: Seq<i32>, j: nat)
    requires
        m.lengths.len() > 0,
    ensures
        batch_run(m, indices, values, j) == batch_run(
            m,
            clamp_indices(indices, m.lengths.len()),
            values,
            j,
        ),
    decreases indices.len() - j,
{
    let c = clamp_indices(indices, m.lengths.len());
    if j < indices.len() {
        lemma_batch_run_clamp(m, indices, values, j + 1);
        let a = indices[j as int];
        let b = c[j as int];
        assert(a >= m.lengths.len() ==> b == m.lengths.len() - 1);
        assert(dist_of(a as int, m.lengths.len() as int) == dist_of(b as int, m.lengths.len() as int));
        assert(elem_plan(m, a, values[j as int]) == elem_plan(m, b, values[j as int]));
        assert(elem_ops(m, a, values[j as int]) == elem_ops(m, b, values[j as int]));
    }
}

proof fn lemma_batch_run_shift(m: EntropyModel, indices: Seq<i32>, values: Seq<i32>, j: nat)
    requires
        indices.len() > 0,
        indices.len() == values.len(),
    ensures
        batch_run(m, indices, values, j + 1) == batch_run(m, indices.drop_first(), values.drop_first(), j),
    decreases indices.len() - j,
{
    if j + 1 < indices.len() {
        lemma_batch_run_shift(m, indices, values, j + 1);
        assert(indices.drop_first()[j as int] == indices[(j + 1) as int]);
        assert(values.drop_first()[j as int] == values[(j + 1) as int]);
    }
}

proof fn lemma_batch_run_coded(m: EntropyModel, indices: Seq<i32>, values: Seq<i32>)
    requires
        indices.len() == values.len(),
    ensures
        coded_elements(indices, values).0.len() == coded_elements(indices, values).1.len(),
        batch_run(m, indices, values, 0) == batch_run(
            m,
            coded_elements(indices, values).0,
            coded_elements(indices, values).1,
            0,
        ),
    decreases indices.len(),
{
    if indices.len() > 0 {
        let ix1 = indices.drop_first();
        let v1 = values.drop_first();
        let rest = coded_elements(ix1, v1);
        lemma_batch_run_coded(m, ix1, v1);
        lemma_batch_run_shift(m, indices, values, 0);
        let prev = batch_run(m, ix1, v1, 0);
        if indices[0] < 0 {
            assert(elem_ops(m, indices[0], values[0]) == Some(Seq::<RawOp>::empty()));
            assert(prev.0 + Seq::<RawOp>::empty() =~= prev.0);
        } else {
            let k0 = seq![indices[0]] + rest.0;
            let k1 = seq![values[0]] + rest.1;
            assert(k0.drop_first() =~= rest.0);
            assert(k1.drop_first() =~= rest.1);
            lemma_batch_run_shift(m, k0, k1, 0);
            assert(k0[0] == indices[0]);
            assert(k1[0] == values[0]);
        }
    }
}

/// Index clamping and skipped elements: encoding a batch gives the same
/// result (and, on success, the same bytes) when every index at or beyond
/// the number of distributions is replaced by the last distribution, and
/// when the elements with a negative index are left out.
pub proof fn lemma_encode_clamps_and_skips(
    m: EntropyModel,
    v: RansVariant,
    indices: Seq<i32>,
    values: Seq<i32>,
)
    requires
        model_ok(m, v),
        indices.len() == values.len(),
    ensures
        encode_bytes(Some(m), indices, values, v) == encode_bytes(
            Some(m),
            clamp_indices(indices, m.lengths.len()),
            values,
            v,
        ),
        encode_bytes(Some(m), indices, values, v) == encode_bytes(
            Some(m),
            coded_elements(indices, values).0,
            coded_elements(indices, values).1,
            v,
        ),
{
    assert(m.lengths.len() > 0);
    lemma_batch_run_clamp(m, indices, values, 0);
    lemma_batch_run_coded(m, indices, values);
}

} // verus!
