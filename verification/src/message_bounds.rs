//! Where a message ends: a strict prefix of an encoded message never
//! decodes, and data after a message is left unread by a partial decode.
//!
//! Both rest on one fact: a decode that succeeds on some data reads only
//! that data, so it succeeds in the same way on any longer data that
//! starts with it.
use crate::entropy::{
    byte_adv, bytes_le_units, dec_bypass, dec_count, dec_digits, dec_elem, dec_run, decode_spec,
    encode_bytes, model_ok, r64_adv, unit_read, EntropyError, EntropyModel,
};
use crate::raw_64::{r64_dec_renorm, r64_init};
use crate::raw_byte::{byte_dec_renorm, byte_init, le_value4};
use crate::roundtrip::{expected_values, lemma_entropy_roundtrip_64, lemma_entropy_roundtrip_byte};
use crate::variant::RansVariant;
use vstd::prelude::*;

verus! {

/// `a` is `b` cut after its first `a.len()` elements.
pub open spec fn starts<T>(a: Seq<T>, b: Seq<T>) -> bool {
    a.len() <= b.len() && forall|i: int| 0 <= i < a.len() ==> a[i] == b[i]
}

/// An advance that succeeds with `a1` gives the same with `a2`, and from a
/// position within `len` it stays within `len`.
pub open spec fn step_extends(
    a1: spec_fn(nat, nat, nat, nat, nat) -> Option<(nat, nat)>,
    a2: spec_fn(nat, nat, nat, nat, nat) -> Option<(nat, nat)>,
    len: nat,
    x: nat,
    s: nat,
    f: nat,
    b: nat,
    p: nat,
) -> bool {
    a1(x, s, f, b, p) is Some ==> {
        &&& a2(x, s, f, b, p) == a1(x, s, f, b, p)
        &&& (p <= len ==> a1(x, s, f, b, p)->Some_0.1 <= len)
    }
}

/// Every advance extends from `a1` to `a2` within `len`.
pub open spec fn adv_extends(
    a1: spec_fn(nat, nat, nat, nat, nat) -> Option<(nat, nat)>,
    a2: spec_fn(nat, nat, nat, nat, nat) -> Option<(nat, nat)>,
    len: nat,
) -> bool {
    forall|x: nat, s: nat, f: nat, b: nat, p: nat| #[trigger] step_extends(a1, a2, len, x, s, f, b, p)
}

proof fn lemma_byte_renorm_extends(x: nat, d1: Seq<u8>, d2: Seq<u8>, pos: nat)
    requires
        starts(d1, d2),
    ensures
        byte_dec_renorm(x, d1, pos) is Some ==> {
            &&& byte_dec_renorm(x, d2, pos) == byte_dec_renorm(x, d1, pos)
            &&& (pos <= d1.len() ==> byte_dec_renorm(x, d1, pos)->Some_0.1 <= d1.len())
        },
    decreases d1.len() - pos,
{
    if x < crate::raw_byte::byte_lower() && pos < d1.len() {
        assert(d1[pos as int] == d2[pos as int]);
        lemma_byte_renorm_extends(x * 256 + d1[pos as int] as nat, d1, d2, pos + 1);
    }
}

proof fn lemma_byte_adv_extends(d1: Seq<u8>, d2: Seq<u8>)
    requires
        starts(d1, d2),
    ensures
        adv_extends(byte_adv(d1), byte_adv(d2), d1.len()),
{
    assert forall|x: nat, s: nat, f: nat, b: nat, p: nat|
        #[trigger] step_extends(byte_adv(d1), byte_adv(d2), d1.len(), x, s, f, b, p) by {
        lemma_byte_renorm_extends(crate::raw_byte::rans_unstep(x, s, f, b), d1, d2, p);
    }
}

proof fn lemma_r64_adv_extends(d1: Seq<u32>, d2: Seq<u32>)
    requires
        starts(d1, d2),
    ensures
        adv_extends(r64_adv(d1), r64_adv(d2), d1.len()),
{
    assert forall|x: nat, s: nat, f: nat, b: nat, p: nat|
        #[trigger] step_extends(r64_adv(d1), r64_adv(d2), d1.len(), x, s, f, b, p) by {
        let y = crate::raw_byte::rans_unstep(x, s, f, b);
        if p < d1.len() {
            assert(d1[p as int] == d2[p as int]);
        }
        assert(r64_dec_renorm(y, d1, p) is Some ==> r64_dec_renorm(y, d2, p) == r64_dec_renorm(y, d1, p));
    }
}

proof fn lemma_unit_read_extends(
    a1: spec_fn(nat, nat, nat, nat, nat) -> Option<(nat, nat)>,
    a2: spec_fn(nat, nat, nat, nat, nat) -> Option<(nat, nat)>,
    len: nat,
    bits: nat,
    x: nat,
    pos: nat,
)
    requires
        adv_extends(a1, a2, len),
    ensures
        unit_read(a1, bits, x, pos) is Some ==> {
            &&& unit_read(a2, bits, x, pos) == unit_read(a1, bits, x, pos)
            &&& (pos <= len ==> unit_read(a1, bits, x, pos)->Some_0.2 <= len)
        },
{
    let v = x % vstd::arithmetic::power2::pow2(bits);
    vstd::arithmetic::power2::lemma_pow2_pos(bits);
    assert(step_extends(a1, a2, len, x, v, 1nat, bits, pos));
}

proof fn lemma_dec_count_extends(
    a1: spec_fn(nat, nat, nat, nat, nat) -> Option<(nat, nat)>,
    a2: spec_fn(nat, nat, nat, nat, nat) -> Option<(nat, nat)>,
    len: nat,
    bits: nat,
    x: nat,
    pos: nat,
    total: nat,
)
    requires
        adv_extends(a1, a2, len),
    ensures
        dec_count(a1, bits, x, pos, total) is Some ==> {
            &&& dec_count(a2, bits, x, pos, total) == dec_count(a1, bits, x, pos, total)
            &&& (pos <= len ==> dec_count(a1, bits, x, pos, total)->Some_0.2 <= len)
        },
    decreases 33 - total,
{
    if bits > 0 {
        lemma_unit_read_extends(a1, a2, len, bits, x, pos);
        match unit_read(a1, bits, x, pos) {
            None => {},
            Some((v, x2, p2)) => {
                if v == crate::entropy::bypass_max(bits) && total + v <= 32 {
                    vstd::arithmetic::power2::lemma_pow2_strictly_increases(0, bits);
                    vstd::arithmetic::power2::lemma2_to64();
                    lemma_dec_count_extends(a1, a2, len, bits, x2, p2, total + v);
                }
            },
        }
    }
}

proof fn lemma_dec_digits_extends(
    a1: spec_fn(nat, nat, nat, nat, nat) -> Option<(nat, nat)>,
    a2: spec_fn(nat, nat, nat, nat, nat) -> Option<(nat, nat)>,
    len: nat,
    bits: nat,
    x: nat,
    pos: nat,
    c: nat,
)
    requires
        adv_extends(a1, a2, len),
    ensures
        dec_digits(a1, bits, x, pos, c) is Some ==> {
            &&& dec_digits(a2, bits, x, pos, c) == dec_digits(a1, bits, x, pos, c)
            &&& (pos <= len ==> dec_digits(a1, bits, x, pos, c)->Some_0.2 <= len)
        },
    decreases c,
{
    if c > 0 {
        lemma_unit_read_extends(a1, a2, len, bits, x, pos);
        match unit_read(a1, bits, x, pos) {
            None => {},
            Some((v, x2, p2)) => {
                lemma_dec_digits_extends(a1, a2, len, bits, x2, p2, (c - 1) as nat);
            },
        }
    }
}

proof fn lemma_dec_bypass_extends(
    a1: spec_fn(nat, nat, nat, nat, nat) -> Option<(nat, nat)>,
    a2: spec_fn(nat, nat, nat, nat, nat) -> Option<(nat, nat)>,
    len: nat,
    bits: nat,
    x: nat,
    pos: nat,
)
    requires
        adv_extends(a1, a2, len),
    ensures
        dec_bypass(a1, bits, x, pos) is Some ==> {
            &&& dec_bypass(a2, bits, x, pos) == dec_bypass(a1, bits, x, pos)
            &&& (pos <= len ==> dec_bypass(a1, bits, x, pos)->Some_0.2 <= len)
        },
{
    lemma_dec_count_extends(a1, a2, len, bits, x, pos, 0);
    match dec_count(a1, bits, x, pos, 0) {
        None => {},
        Some((c, x2, p2)) => {
            lemma_dec_digits_extends(a1, a2, len, bits, x2, p2, c);
        },
    }
}

proof fn lemma_dec_elem_extends(
    m: EntropyModel,
    a1: spec_fn(nat, nat, nat, nat, nat) -> Option<(nat, nat)>,
    a2: spec_fn(nat, nat, nat, nat, nat) -> Option<(nat, nat)>,
    len: nat,
    index: i32,
    x: nat,
    pos: nat,
)
    requires
        adv_extends(a1, a2, len),
    ensures
        dec_elem(m, a1, index, x, pos) is Some ==> {
            &&& dec_elem(m, a2, index, x, pos) == dec_elem(m, a1, index, x, pos)
            &&& (pos <= len ==> dec_elem(m, a1, index, x, pos)->Some_0.2 <= len)
        },
{
    if index >= 0 {
        let d = crate::pmf::dist_of(index as int, m.lengths.len() as int);
        let sentinel = m.lengths[d] - 1;
        let k = crate::entropy::find_entry(m, d, x % vstd::arithmetic::power2::pow2(m.symbol_bits), sentinel);
        let st = crate::pmf::pmf_start(m.lengths, m.table, d, k) as nat;
        let fr = crate::pmf::pmf_entry(m.lengths, m.table, d, k) as nat;
        assert(step_extends(a1, a2, len, x, st, fr, m.symbol_bits, pos));
        match a1(x, st, fr, m.symbol_bits, pos) {
            None => {},
            Some((x1, p1)) => {
                lemma_dec_bypass_extends(a1, a2, len, m.bypass_bits, x1, p1);
            },
        }
    }
}

/// A run of element decodes that succeeds with `a1` gives the same values,
/// state and position with `a2`, and stays within `len`.
proof fn lemma_dec_run_extends(
    m: EntropyModel,
    a1: spec_fn(nat, nat, nat, nat, nat) -> Option<(nat, nat)>,
    a2: spec_fn(nat, nat, nat, nat, nat) -> Option<(nat, nat)>,
    len: nat,
    indices: Seq<i32>,
    x: nat,
    pos: nat,
)
    requires
        adv_extends(a1, a2, len),
    ensures
        dec_run(m, a1, indices, x, pos).1 is Some ==> {
            &&& dec_run(m, a2, indices, x, pos) == dec_run(m, a1, indices, x, pos)
            &&& (pos <= len ==> dec_run(m, a1, indices, x, pos).1->Some_0.1 <= len)
        },
    decreases indices.len(),
{
    if indices.len() > 0 {
        lemma_dec_elem_extends(m, a1, a2, len, indices[0], x, pos);
        match dec_elem(m, a1, indices[0], x, pos) {
            None => {},
            Some((v, x2, p2)) => {
                lemma_dec_run_extends(m, a1, a2, len, indices.drop_first(), x2, p2);
            },
        }
    }
}

/// The 32-bit units of bytes that start longer bytes start the longer
/// bytes' units.
proof fn lemma_units_start(b1: Seq<u8>, b2: Seq<u8>)
    requires
        starts(b1, b2),
    ensures
        starts(bytes_le_units(b1), bytes_le_units(b2)),
{
    assert forall|i: int| 0 <= i < bytes_le_units(b1).len() implies bytes_le_units(b1)[i]
        == bytes_le_units(b2)[i] by {
        assert(b1[4 * i] == b2[4 * i]);
        assert(b1[4 * i + 1] == b2[4 * i + 1]);
        assert(b1[4 * i + 2] == b2[4 * i + 2]);
        assert(b1[4 * i + 3] == b2[4 * i + 3]);
        assert(le_value4(b1, 4 * i) == le_value4(b2, 4 * i));
    }
    assert(b1.len() / 4 <= b2.len() / 4) by {
        vstd::arithmetic::div_mod::lemma_div_is_ordered(b1.len() as int, b2.len() as int, 4);
    }
}

/// A strict prefix of a message never decodes (RansByte): when encoding a
/// batch succeeds (precisions at most 23 bits), decoding any strict prefix
/// of its message with the whole-message check fails with
/// `InvalidStream`.
pub proof fn lemma_prefix_fails_byte(
    m: EntropyModel,
    indices: Seq<i32>,
    values: Seq<i32>,
    cut: nat,
    need_eof: bool,
)
    requires
        model_ok(m, RansVariant::RansByte),
        m.symbol_bits <= 23,
        m.bypass_bits <= 23,
        encode_bytes(Some(m), indices, values, RansVariant::RansByte) is Ok,
        cut < encode_bytes(Some(m), indices, values, RansVariant::RansByte)->Ok_0.len(),
    ensures
        decode_spec(
            Some(m),
            indices,
            values.len(),
            RansVariant::RansByte,
            encode_bytes(Some(m), indices, values, RansVariant::RansByte)->Ok_0.subrange(0, cut as int),
            true,
            need_eof,
        ).0 == Err::<nat, EntropyError>(EntropyError::InvalidStream),
{
    let bytes = encode_bytes(Some(m), indices, values, RansVariant::RansByte)->Ok_0;
    let pre = bytes.subrange(0, cut as int);
    lemma_entropy_roundtrip_byte(m, indices, values, true, need_eof);
    assert(starts(pre, bytes));
    match byte_init(pre, 0) {
        None => {},
        Some((x, p)) => {
            assert(le_value4(pre, 0) == le_value4(bytes, 0));
            assert(byte_init(bytes, 0) == byte_init(pre, 0));
            lemma_byte_adv_extends(pre, bytes);
            lemma_dec_run_extends(m, byte_adv(pre), byte_adv(bytes), pre.len(), indices, x, p);
        },
    }
}

/// A strict prefix of a message never decodes (Rans64): when encoding a
/// batch succeeds, decoding any strict prefix of its message with the
/// whole-message check fails with `InvalidStream`.
pub proof fn lemma_prefix_fails_64(
    m: EntropyModel,
    indices: Seq<i32>,
    values: Seq<i32>,
    cut: nat,
    need_eof: bool,
)
    requires
        model_ok(m, RansVariant::Rans64),
        encode_bytes(Some(m), indices, values, RansVariant::Rans64) is Ok,
        cut < encode_bytes(Some(m), indices, values, RansVariant::Rans64)->Ok_0.len(),
    ensures
        decode_spec(
            Some(m),
            indices,
            values.len(),
            RansVariant::Rans64,
            encode_bytes(Some(m), indices, values, RansVariant::Rans64)->Ok_0.subrange(0, cut as int),
            true,
            need_eof,
        ).0 == Err::<nat, EntropyError>(EntropyError::InvalidStream),
{
    let bytes = encode_bytes(Some(m), indices, values, RansVariant::Rans64)->Ok_0;
    let pre = bytes.subrange(0, cut as int);
    lemma_entropy_roundtrip_64(m, indices, values, true, need_eof);
    if pre.len() % 4 == 0 {
        assert(starts(pre, bytes));
        lemma_units_start(pre, bytes);
        let u1 = bytes_le_units(pre);
        let u2 = bytes_le_units(bytes);
        assert(u1.len() < u2.len()) by {
            vstd::arithmetic::div_mod::lemma_fundamental_div_mod(pre.len() as int, 4);
            vstd::arithmetic::div_mod::lemma_fundamental_div_mod(bytes.len() as int, 4);
        }
        match r64_init(u1, 0) {
            None => {},
            Some((x, p)) => {
                assert(r64_init(u2, 0) == r64_init(u1, 0));
                lemma_r64_adv_extends(u1, u2);
                lemma_dec_run_extends(m, r64_adv(u1), r64_adv(u2), u1.len(), indices, x, p);
            },
        }
    }
}

/// Trailing data is left unread (RansByte): when encoding a batch succeeds
/// (precisions at most 23 bits), decoding its message followed by any
/// bytes without the whole-data check gives back every value and reports
/// the message's length; with the whole-data check, any trailing byte
/// makes it fail with `InvalidStream`.
pub proof fn lemma_trailing_data_byte(
    m: EntropyModel,
    indices: Seq<i32>,
    values: Seq<i32>,
    extra: Seq<u8>,
    need_eof: bool,
)
    requires
        model_ok(m, RansVariant::RansByte),
        m.symbol_bits <= 23,
        m.bypass_bits <= 23,
        encode_bytes(Some(m), indices, values, RansVariant::RansByte) is Ok,
    ensures
        ({
            let bytes = encode_bytes(Some(m), indices, values, RansVariant::RansByte)->Ok_0;
            &&& decode_spec(
                Some(m),
                indices,
                values.len(),
                RansVariant::RansByte,
                bytes + extra,
                false,
                need_eof,
            ) == (Ok::<nat, EntropyError>(bytes.len()), expected_values(indices, values))
            &&& extra.len() > 0 ==> decode_spec(
                Some(m),
                indices,
                values.len(),
                RansVariant::RansByte,
                bytes + extra,
                true,
                need_eof,
            ).0 == Err::<nat, EntropyError>(EntropyError::InvalidStream)
        }),
{
    let bytes = encode_bytes(Some(m), indices, values, RansVariant::RansByte)->Ok_0;
    let data = bytes + extra;
    lemma_entropy_roundtrip_byte(m, indices, values, false, need_eof);
    assert(starts(bytes, data));
    assert(le_value4(bytes, 0) == le_value4(data, 0));
    let (x, p) = byte_init(bytes, 0)->Some_0;
    assert(byte_init(data, 0) == byte_init(bytes, 0));
    lemma_byte_adv_extends(bytes, data);
    lemma_dec_run_extends(m, byte_adv(bytes), byte_adv(data), bytes.len(), indices, x, p);
}

/// Trailing data is left unread (Rans64): when encoding a batch succeeds,
/// decoding its message followed by whole 32-bit units without the
/// whole-data check gives back every value and reports the message's
/// length in units; with the whole-data check, any trailing unit makes it
/// fail with `InvalidStream`.
pub proof fn lemma_trailing_data_64(
    m: EntropyModel,
    indices: Seq<i32>,
    values: Seq<i32>,
    extra: Seq<u8>,
    need_eof: bool,
)
    requires
        model_ok(m, RansVariant::Rans64),
        encode_bytes(Some(m), indices, values, RansVariant::Rans64) is Ok,
        extra.len() % 4 == 0,
    ensures
        ({
            let bytes = encode_bytes(Some(m), indices, values, RansVariant::Rans64)->Ok_0;
            &&& decode_spec(
                Some(m),
                indices,
                values.len(),
                RansVariant::Rans64,
                bytes + extra,
                false,
                need_eof,
            ) == (Ok::<nat, EntropyError>(bytes.len() / 4), expected_values(indices, values))
            &&& extra.len() > 0 ==> decode_spec(
                Some(m),
                indices,
                values.len(),
                RansVariant::Rans64,
                bytes + extra,
                true,
                need_eof,
            ).0 == Err::<nat, EntropyError>(EntropyError::InvalidStream)
        }),
{
    let bytes = encode_bytes(Some(m), indices, values, RansVariant::Rans64)->Ok_0;
    let data = bytes + extra;
    lemma_entropy_roundtrip_64(m, indices, values, false, need_eof);
    assert(starts(bytes, data));
    lemma_units_start(bytes, data);
    let u1 = bytes_le_units(bytes);
    let u2 = bytes_le_units(data);
    assert(data.len() % 4 == 0 && u1.len() == bytes.len() / 4 && u2.len() == data.len() / 4) by {
        vstd::arithmetic::div_mod::lemma_fundamental_div_mod(bytes.len() as int, 4);
        vstd::arithmetic::div_mod::lemma_fundamental_div_mod(extra.len() as int, 4);
        vstd::arithmetic::div_mod::lemma_fundamental_div_mod(data.len() as int, 4);
    }
    assert(extra.len() > 0 ==> u1.len() < u2.len()) by {
        vstd::arithmetic::div_mod::lemma_fundamental_div_mod(bytes.len() as int, 4);
        vstd::arithmetic::div_mod::lemma_fundamental_div_mod(data.len() as int, 4);
    }
    let (x, p) = r64_init(u1, 0)->Some_0;
    assert(r64_init(u2, 0) == r64_init(u1, 0));
    lemma_r64_adv_extends(u1, u2);
    lemma_dec_run_extends(m, r64_adv(u1), r64_adv(u2), u1.len(), indices, x, p);
}

} // verus!
