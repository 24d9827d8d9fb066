//! Arithmetic primitives for rANS: the high half of a 64x64 product,
//! reciprocal preparation (Alverson's method) and fast division by a
//! frequency through its reciprocal.
use crate::Freq;
use vstd::arithmetic::div_mod::*;
use vstd::arithmetic::mul::*;
use vstd::arithmetic::power2::*;
use vstd::bits::*;
use vstd::prelude::*;

verus! {

/// 2^64 as a mathematical integer.
pub open spec fn two_pow_64() -> nat {
    0x1_0000_0000_0000_0000nat
}

/// 2^32 as a mathematical integer.
pub open spec fn two_pow_32() -> nat {
    0x1_0000_0000nat
}

/// The reciprocal shift search, starting at `s`: the first `t >= s` with
/// `freq <= 2^t`, capped at 31.
pub open spec fn rcp_shift_from(freq: nat, s: nat) -> nat
    decreases 31 - s,
{
    if s >= 31 || freq <= pow2(s) {
        s
    } else {
        rcp_shift_from(freq, s + 1)
    }
}

/// `ceil(log2(freq))`, but at least 1: the smallest `s >= 1` with `freq <= 2^s`.
pub open spec fn rcp_shift(freq: nat) -> nat {
    rcp_shift_from(freq, 1)
}

/// The characterisation of the reciprocal shift of `freq`.
pub open spec fn is_reciprocal_shift(freq: nat, s: nat) -> bool {
    &&& 1 <= s <= 31
    &&& freq <= pow2(s)
    &&& (s == 1 || pow2((s - 1) as nat) < freq)
}

/// The 64-bit reciprocal `ceil(2^(shift + 63) / freq)` (0 for `freq == 1`,
/// where the value 2^64 wraps).
pub open spec fn reciprocal64(freq: nat) -> int {
    if freq >= 2 {
        (pow2(rcp_shift(freq) + 63) + freq - 1) / (freq as int)
    } else {
        0
    }
}

/// The 32-bit reciprocal `ceil(2^(shift + 31) / freq)` (0 for `freq == 1`).
pub open spec fn reciprocal32(freq: nat) -> int {
    if freq >= 2 {
        (pow2(rcp_shift(freq) + 31) + freq - 1) / (freq as int)
    } else {
        0
    }
}

proof fn lemma_rcp_shift_from(freq: nat, s: nat)
    requires
        1 <= s <= 31,
        1 <= freq <= 0x8000_0000,
        s == 1 || pow2((s - 1) as nat) < freq,
    ensures
        is_reciprocal_shift(freq, rcp_shift_from(freq, s)),
    decreases 31 - s,
{
    lemma2_to64();
    if s >= 31 || freq <= pow2(s) {
    } else {
        lemma_rcp_shift_from(freq, s + 1);
    }
}

/// The reciprocal shift of a valid frequency satisfies its characterisation.
pub proof fn lemma_rcp_shift(freq: nat)
    requires
        1 <= freq <= 0x8000_0000,
    ensures
        is_reciprocal_shift(freq, rcp_shift(freq)),
{
    lemma_rcp_shift_from(freq, 1);
}

/// Returns the high 64 bits of the 128-bit product of two 64-bit integers
/// (`Mul64Hi`).
pub fn mul_hi_u64(a: u64, b: u64) -> (r: u64)
    ensures
        r == (a as nat * b as nat) / two_pow_64(),
{
    proof {
        lemma_mul_upper_bound(a as int, u64::MAX as int, b as int, u64::MAX as int);
        lemma_mul_nonnegative(a as int, b as int);
    }
    let prod: u128 = (a as u128) * (b as u128);
    proof {
        lemma_u128_shr_is_div(prod, 64);
        lemma2_to64_rest();
        assert(prod as nat / two_pow_64() < two_pow_64()) by {
            lemma_div_strictly_bounded_local(prod as int, two_pow_64() as int, two_pow_64() as int);
        }
    }
    (prod >> 64u128) as u64
}

proof fn lemma_div_strictly_bounded_local(x: int, a: int, b: int)
    requires
        a > 0,
        b >= 0,
        0 <= x < a * b,
    ensures
        x / a < b,
{
    lemma_div_by_multiple(b, a);
    lemma_mul_is_commutative(a, b);
    lemma_div_by_multiple_is_strongly_ordered(x, a * b, b, a);
}

/// Compute the reciprocal shift for a given frequency: the smallest
/// `shift >= 1` with `freq <= 2^shift` (that is `ceil(log2(freq))`, at least 1).
pub fn reciprocal_shift(freq: Freq) -> (shift: u32)
    requires
        freq <= 0x8000_0000,
    ensures
        shift == rcp_shift(freq as nat),
        freq >= 1 ==> is_reciprocal_shift(freq as nat, shift as nat),
{
    let mut shift: u32 = 1;
    proof {
        lemma2_to64();
    }
    loop
        invariant
            1 <= shift <= 31,
            freq <= 0x8000_0000,
            rcp_shift_from(freq as nat, shift as nat) == rcp_shift(freq as nat),
        ensures
            1 <= shift <= 31,
            shift == rcp_shift(freq as nat),
        decreases 31 - shift,
    {
        proof {
            lemma2_to64();
            lemma_pow2_strictly_increases(shift as nat, 32);
            lemma_u32_shl_is_mul(1, shift);
        }
        if shift >= 31 || freq <= (1u32 << shift) {
            break;
        }
        shift += 1;
    }
    proof {
        if freq >= 1 {
            lemma_rcp_shift(freq as nat);
        }
    }
    shift
}

/// Long division of `x1 * 2^32 + (f - 1)` by `f` in two 32-bit digits.
proof fn lemma_long_division(x1: int, f: int, t1: int, r1: int, t0: int)
    requires
        f >= 1,
        x1 >= 0,
        t1 >= 0,
        r1 >= 0,
        t1 == x1 / f,
        r1 == x1 % f,
        t0 == ((f - 1) + r1 * two_pow_32()) / f,
    ensures
        (x1 * two_pow_32() + f - 1) / f == t1 * two_pow_32() + t0,
{
    lemma_fundamental_div_mod(x1 as int, f as int);
    let rest: int = (f - 1) + r1 * two_pow_32();
    assert(x1 * two_pow_32() + f - 1 == (t1 * two_pow_32()) * f + rest) by (nonlinear_arith)
        requires
                x1 == f * t1 + r1,
            rest == (f - 1) + r1 * two_pow_32(),
    ;
    lemma_div_plus_multiple(rest, (t1 * two_pow_32()) as int, f as int);
}

proof fn lemma_div_plus_multiple(rest: int, a: int, f: int)
    requires
        f > 0,
        rest >= 0,
        a >= 0,
    ensures
        (a * f + rest) / f == a + rest / f,
{
    lemma_fundamental_div_mod(rest, f);
    let q: int = rest / f;
    let r: int = rest % f;
    assert(a * f + rest == (a + q) * f + r) by (nonlinear_arith)
        requires
            rest == f * q + r,
    ;
    lemma_fundamental_div_mod_converse(a * f + rest, f, a + q, r);
}

/// If `m * f == p * t + f - 1 - r` with `p < f <= t` and `0 <= r < f`, then `m < t`.
proof fn lemma_quotient_below(m: int, f: int, p: int, r: int, t: int)
    requires
        m * f == p * t + f - 1 - r,
        0 <= r < f,
        0 <= p < f,
        f <= t,
    ensures
        m < t,
{
    assert((f - p) * t >= t) by (nonlinear_arith)
        requires
            f - p >= 1,
            t >= 0,
    ;
    lemma_mul_is_distributive_sub(t, f, p);
    lemma_mul_is_commutative(t, f);
    lemma_mul_is_commutative(t, p);
    lemma_mul_is_commutative(t, f - p);
    assert(m * f < t * f);
    if m >= t {
        lemma_mul_inequality(t, m, f);
        lemma_mul_is_commutative(m, f);
    }
}

/// For `2 <= f <= 2^31` with shift `s`, `ceil(2^(s+63)/f) < 2^64`.
pub proof fn lemma_reciprocal64_fits(f: nat)
    requires
        2 <= f <= 0x8000_0000,
    ensures
        reciprocal64(f) < two_pow_64(),
        reciprocal64(f) * f >= pow2(rcp_shift(f) + 63),
        reciprocal64(f) * f < pow2(rcp_shift(f) + 63) + f,
{
    lemma_rcp_shift(f);
    let s: nat = rcp_shift(f);
    let k: nat = s + 63;
    lemma_pow2_adds((s - 1) as nat, 64);
    lemma2_to64_rest();
    let p: nat = pow2((s - 1) as nat);
    assert(s == 1 ==> p == 1) by {
        lemma2_to64();
    }
    assert(p < f);
    assert(pow2(k) == p * two_pow_64());
    let m: int = reciprocal64(f);
    lemma_fundamental_div_mod((pow2(k) + f - 1) as int, f as int);
    let r: int = (pow2(k) + f - 1) as int % f as int;
    assert(m * f == pow2(k) + f - 1 - r) by (nonlinear_arith)
        requires
            pow2(k) + f - 1 == f * m + r,
    ;
    assert(0 <= r < f);
    lemma_quotient_below(m, f as int, p as int, r, two_pow_64() as int);
}

/// Compute the fixed-point reciprocal frequency for a 64-bit state
/// (Alverson integer division, the `uint64_t` specialisation).
pub fn compute_reciprocal_u64(freq: Freq) -> (r: u64)
    requires
        1 <= freq <= 0x8000_0000,
    ensures
        r == reciprocal64(freq as nat),
{
    let x0: u64 = (freq - 1) as u64;
    let shift: u32 = reciprocal_shift(freq);
    proof {
        lemma_pow2_strictly_increases((shift + 31) as nat, 64);
        lemma2_to64_rest();
        lemma_u64_shl_is_mul(1, (shift + 31) as u64);
    }
    let x1: u64 = 1u64 << (shift + 31);
    let t1: u64 = x1 / freq as u64;
    let r1: u64 = x1 % freq as u64;
    proof {
        lemma_pow2_adds((shift - 1) as nat, 32);
        lemma2_to64();
        lemma_mod_bound(x1 as int, freq as int);
        assert(r1 * two_pow_32() + (freq - 1) < two_pow_64()) by (nonlinear_arith)
            requires
                r1 < freq,
                freq <= 0x8000_0000,
        ;
        lemma_u64_shl_is_mul(r1, 32);
    }
    let x0_adj: u64 = x0 + (r1 << 32u64);
    let t0: u64 = x0_adj / freq as u64;
    proof {
        lemma_long_division(x1 as int, freq as int, t1 as int, r1 as int, t0 as int);
        lemma_pow2_adds((shift + 31) as nat, 32);
        assert(pow2(shift as nat + 63) == x1 * two_pow_32());
    }
    if freq == 1 {
        proof {
            assert(t0 == 0);
        }
        return t0;
    }
    proof {
        lemma_reciprocal64_fits(freq as nat);
        assert(t1 * two_pow_32() + t0 < two_pow_64());
        assert(t1 * two_pow_32() < two_pow_64());
        lemma_u64_shl_is_mul(t1, 32);
    }
    t0 + (t1 << 32u64)
}

/// For `2 <= f <= 2^31` with shift `s`, `ceil(2^(s+31)/f) < 2^32`.
pub proof fn lemma_reciprocal32_fits(f: nat)
    requires
        2 <= f <= 0x8000_0000,
    ensures
        reciprocal32(f) < two_pow_32(),
        reciprocal32(f) * f >= pow2(rcp_shift(f) + 31),
        reciprocal32(f) * f < pow2(rcp_shift(f) + 31) + f,
{
    lemma_rcp_shift(f);
    let s: nat = rcp_shift(f);
    let k: nat = s + 31;
    lemma_pow2_adds((s - 1) as nat, 32);
    lemma2_to64();
    let p: nat = pow2((s - 1) as nat);
    assert(p < f);
    assert(pow2(k) == p * two_pow_32());
    let m: int = reciprocal32(f);
    lemma_fundamental_div_mod((pow2(k) + f - 1) as int, f as int);
    let r: int = (pow2(k) + f - 1) as int % f as int;
    assert(m * f == pow2(k) + f - 1 - r) by (nonlinear_arith)
        requires
            pow2(k) + f - 1 == f * m + r,
    ;
    lemma_quotient_below(m, f as int, p as int, r, two_pow_32() as int);
}

/// Compute the fixed-point reciprocal frequency for a 32-bit state:
/// `((1 << (shift + 31)) + freq - 1) / freq`, truncated to 32 bits.
pub fn compute_reciprocal_u32(freq: Freq) -> (r: u32)
    requires
        1 <= freq <= 0x8000_0000,
    ensures
        r == reciprocal32(freq as nat),
{
    let shift: u32 = reciprocal_shift(freq);
    let bits: u32 = 32;
    proof {
        lemma_pow2_strictly_increases((shift + bits - 1) as nat, 63);
        lemma2_to64_rest();
        lemma_u64_shl_is_mul(1, (shift + bits - 1) as u64);
    }
    let nom: u64 = (1u64 << (shift + bits - 1)) + (freq - 1) as u64;
    let q: u64 = nom / freq as u64;
    if freq == 1 {
        proof {
            lemma2_to64();
            assert(q == 0x1_0000_0000);
            assert(q as u32 == 0) by (bit_vector)
                requires
                    q == 0x1_0000_0000u64,
            ;
        }
        return q as u32;
    }
    proof {
        lemma_reciprocal32_fits(freq as nat);
    }
    q as u32
}

/// The reciprocal pair for a frequency of one on a 64-bit state:
/// `(2^64 - 1, 0)`.
pub fn freq_one_reciprocal_u64() -> (r: (u64, u32))
    ensures
        r == (u64::MAX, 0u32),
{
    proof {
        assert(!0u64 == u64::MAX) by (bit_vector);
    }
    (!0u64, 0)
}

/// The reciprocal pair for a frequency of one on a 32-bit state:
/// `(2^32 - 1, 0)`.
pub fn freq_one_reciprocal_u32() -> (r: (u32, u32))
    ensures
        r == (u32::MAX, 0u32),
{
    proof {
        assert(!0u32 == u32::MAX) by (bit_vector);
    }
    (!0u32, 0)
}

/// Fast division by frequency using the reciprocal:
/// `Mul64Hi(x, freq_rcp) >> rcp_shift`.
pub fn fast_quotient_u64(x: u64, freq_rcp: u64, rcp_shift: u32) -> (q: u64)
    requires
        rcp_shift < 64,
    ensures
        q == (x as nat * freq_rcp as nat) / two_pow_64() / pow2(rcp_shift as nat),
{
    let hi: u64 = mul_hi_u64(x, freq_rcp);
    proof {
        lemma_u64_shr_is_div(hi, rcp_shift as u64);
    }
    hi >> (rcp_shift as u64)
}

/// Fast division by frequency for a 32-bit state:
/// `(x * freq_rcp) >> rcp_shift`, truncated to 32 bits.
pub fn fast_quotient_u32(x: u32, freq_rcp: u32, rcp_shift: u32) -> (q: u32)
    requires
        rcp_shift < 64,
    ensures
        q == ((x as nat * freq_rcp as nat) / pow2(rcp_shift as nat)) % two_pow_32(),
{
    proof {
        lemma_mul_upper_bound(x as int, u32::MAX as int, freq_rcp as int, u32::MAX as int);
        lemma_mul_nonnegative(x as int, freq_rcp as int);
    }
    let prod: u64 = x as u64 * freq_rcp as u64;
    let sh: u64 = prod >> (rcp_shift as u64);
    proof {
        lemma_u64_shr_is_div(prod, rcp_shift as u64);
        assert(sh as u32 == sh % 0x1_0000_0000) by (bit_vector);
    }
    sh as u32
}

/// Alverson's bound: if `m * f == K + e` with `0 <= e < f` and `x * f <= K`,
/// then `(x * m) / K == x / f`.
proof fn lemma_alverson(x: int, f: int, m: int, big_k: int, e: int)
    requires
        x >= 0,
        f > 0,
        big_k > 0,
        m * f == big_k + e,
        0 <= e < f,
        x * f <= big_k,
    ensures
        (x * m) / big_k == x / f,
{
    lemma_fundamental_div_mod(x, f);
    let q: int = x / f;
    let r: int = x % f;
    assert(x * e < big_k) by (nonlinear_arith)
        requires
            x >= 0,
            0 <= e < f,
            x * f <= big_k,
            big_k > 0,
    ;
    assert(x * m * f == x * big_k + x * e) by (nonlinear_arith)
        requires
            m * f == big_k + e,
    ;
    assert(q * big_k <= x * m) by (nonlinear_arith)
        requires
            x * m * f == x * big_k + x * e,
            x == f * q + r,
            0 <= r,
            x * e >= 0,
            f > 0,
            big_k > 0,
    ;
    assert(x * m < (q + 1) * big_k) by (nonlinear_arith)
        requires
            x * m * f == x * big_k + x * e,
            x == f * q + r,
            r < f,
            x * e < big_k,
            f > 0,
            big_k > 0,
    ;
    lemma_mul_is_distributive_add_other_way(big_k, q, 1);
    lemma_fundamental_div_mod_converse(x * m, big_k, q, x * m - q * big_k);
}

/// Fast division law (64-bit state): for `2 <= freq <= 2^31` and
/// `x < 2^63`, the reciprocal-multiply quotient with the prepared reciprocal
/// and shift `rcp_shift(freq) - 1` equals the exact quotient `x / freq`.
pub proof fn lemma_fast_quotient_u64_is_division(x: nat, freq: nat)
    requires
        2 <= freq <= 0x8000_0000,
        x < 0x8000_0000_0000_0000,
    ensures
        (x * (reciprocal64(freq) as nat)) / two_pow_64() / pow2((rcp_shift(freq) - 1) as nat) == x / freq,
{
    lemma_reciprocal64_fits(freq);
    lemma_rcp_shift(freq);
    let s: nat = rcp_shift(freq);
    let m: int = reciprocal64(freq);
    lemma2_to64_rest();
    lemma_pow2_adds(64, (s - 1) as nat);
    lemma_pow2_pos((s - 1) as nat);
    lemma_mul_nonnegative(x as int, m);
    lemma_div_denominator((x * m) as int, two_pow_64() as int, pow2((s - 1) as nat) as int);
    let big_k: int = pow2(s + 63) as int;
    lemma_pow2_adds(63, s);
    assert(x * freq <= big_k) by (nonlinear_arith)
        requires
            x < 0x8000_0000_0000_0000,
            freq <= pow2(s),
            big_k == 0x8000_0000_0000_0000 * pow2(s),
    ;
    lemma_alverson(x as int, freq as int, m, big_k, m * freq - big_k);
}

/// Fast division law (32-bit state): for `2 <= freq <= 2^31` and
/// `x < 2^31`, `(x * rcp) >> (rcp_shift(freq) - 1 + 32)` equals `x / freq`.
pub proof fn lemma_fast_quotient_u32_is_division(x: nat, freq: nat)
    requires
        2 <= freq <= 0x8000_0000,
        x < 0x8000_0000,
    ensures
        ((x * (reciprocal32(freq) as nat)) / pow2((rcp_shift(freq) - 1 + 32) as nat)) % two_pow_32()
            == x / freq,
{
    lemma_reciprocal32_fits(freq);
    lemma_rcp_shift(freq);
    let s: nat = rcp_shift(freq);
    let m: int = reciprocal32(freq);
    lemma2_to64();
    let big_k: int = pow2(s + 31) as int;
    assert((s - 1 + 32) as nat == s + 31);
    lemma_pow2_adds(31, s);
    assert(x * freq <= big_k) by (nonlinear_arith)
        requires
            x < 0x8000_0000,
            freq <= pow2(s),
            big_k == 0x8000_0000 * pow2(s),
    ;
    lemma_mul_nonnegative(x as int, m);
    lemma_alverson(x as int, freq as int, m, big_k, m * freq - big_k);
    assert(x / freq <= x) by {
        lemma_div_is_ordered_by_denominator(x as int, 1, freq as int);
    }
    lemma_small_mod((x / freq) as nat, two_pow_32());
}

/// Fast division with a frequency of one: `Mul64Hi(x, 2^64 - 1) == x - 1`
/// for every `x >= 1`.
pub proof fn lemma_freq_one_quotient(x: nat)
    requires
        1 <= x < two_pow_64(),
    ensures
        (x * (u64::MAX as nat)) / two_pow_64() == x - 1,
{
    assert(x * (u64::MAX as nat) == (x - 1) * two_pow_64() + (two_pow_64() - x)) by (nonlinear_arith);
    lemma_fundamental_div_mod_converse(
        (x * (u64::MAX as nat)) as int,
        two_pow_64() as int,
        x - 1,
        two_pow_64() - x,
    );
}

} // verus!
