//! The Rans64 variant of the raw rANS coder: 64-bit state (63 state bits),
//! 32-bit units, lower bound 2^31, two units per flushed state.
use crate::arithmetic::{
    compute_reciprocal_u64, fast_quotient_u64, lemma_fast_quotient_u64_is_division,
    lemma_freq_one_quotient, lemma_rcp_shift, lemma_reciprocal64_fits, rcp_shift, reciprocal64,
    reciprocal_shift, two_pow_32, two_pow_64,
};
use crate::error::RawRansError;
use crate::raw_byte::{
    all_valid, check_symbol, check_symbol_spec, lemma_all_valid_drop_last, lemma_unstep_fits,
    rans_step, rans_unstep, valid_symbol, RawOp,
};
use crate::sink::{Sink, VecSink};
use crate::source::{SliceSource, Source};
use crate::Freq;
use vstd::arithmetic::div_mod::*;
use vstd::arithmetic::mul::*;
use vstd::arithmetic::power2::*;
use vstd::bits::*;
use vstd::prelude::*;

verus! {

/// `LOWER_BOUND` of the Rans64 state: 2^31.
pub open spec fn r64_lower() -> nat {
    0x8000_0000
}

/// Exclusive upper bound of the Rans64 encoder state: 2^63.
pub open spec fn r64_upper() -> nat {
    0x8000_0000_0000_0000
}

/// Encoder renormalisation (Rans64 emits at most one 32-bit unit).
pub open spec fn r64_renorm(x: nat, x_max: nat) -> (Seq<u32>, nat) {
    if x >= x_max {
        (seq![(x % two_pow_32()) as u32], x / two_pow_32())
    } else {
        (Seq::empty(), x)
    }
}

/// `x_max` of a raw put: `freq << (63 - scale_bits)`.
pub open spec fn r64_x_max(freq: nat, scale_bits: nat) -> nat {
    freq * pow2((63 - scale_bits) as nat)
}

/// One raw put: the units emitted (emission order) and the new state.
pub open spec fn r64_put_raw(x: nat, start: nat, freq: nat, scale_bits: nat) -> (Seq<u32>, nat) {
    let r = r64_renorm(x, r64_x_max(freq, scale_bits));
    (r.0, rans_step(r.1, start, freq, scale_bits))
}

/// The flushed units of a 64-bit state, as left in the encoded output.
pub open spec fn r64_flush_units(x: nat) -> Seq<u32> {
    seq![(x % two_pow_32()) as u32, ((x / two_pow_32()) % two_pow_32()) as u32]
}

/// Decoder initialisation: two units, low first, forming a state of at
/// least the lower bound.
pub open spec fn r64_init(data: Seq<u32>, pos: nat) -> Option<(nat, nat)> {
    if pos + 2 <= data.len() && data[pos as int] as nat + data[pos as int + 1] as nat * two_pow_32()
        >= r64_lower() {
        Some((data[pos as int] as nat + data[pos as int + 1] as nat * two_pow_32(), pos + 2))
    } else {
        None
    }
}

/// Decoder renormalisation (Rans64 reads at most one unit).
pub open spec fn r64_dec_renorm(x: nat, data: Seq<u32>, pos: nat) -> Option<(nat, nat)> {
    if x >= r64_lower() {
        Some((x, pos))
    } else if pos < data.len() {
        Some((x * two_pow_32() + data[pos as int] as nat, pos + 1))
    } else {
        None
    }
}

/// One decoder advance past `(start, freq)`.
pub open spec fn r64_advance(
    x: nat,
    start: nat,
    freq: nat,
    scale_bits: nat,
    data: Seq<u32>,
    pos: nat,
) -> Option<(nat, nat)> {
    r64_dec_renorm(rans_unstep(x, start, freq, scale_bits), data, pos)
}

/// Prepared encoder symbol (reciprocal form of `(start, freq)`).
#[derive(Debug, Clone, Copy)]
pub struct Rans64EncSymbol {
    /// `freq << (31 - scale_bits)`; the encoder shifts it left by 32 more.
    pub x_max_hi: Freq,
    /// Shift applied after the high half of the reciprocal multiply.
    pub freq_rcp_shift: u32,
    /// Fixed-point reciprocal of the frequency.
    pub freq_rcp: u64,
    /// `scale - freq`.
    pub freq_compl: Freq,
    /// `start`, or `start + scale - 1` when `freq == 1`.
    pub bias: Freq,
}

/// The prepared symbol for `(start, freq)` at `scale_bits`.
pub open spec fn prepare_64(start: nat, freq: nat, scale_bits: nat) -> Rans64EncSymbol {
    Rans64EncSymbol {
        x_max_hi: (freq * pow2((31 - scale_bits) as nat)) as u32,
        freq_rcp_shift: if freq > 1 {
            (rcp_shift(freq) - 1) as u32
        } else {
            0u32
        },
        freq_rcp: if freq > 1 {
            reciprocal64(freq) as u64
        } else {
            u64::MAX
        },
        freq_compl: (pow2(scale_bits) - freq) as u32,
        bias: if freq > 1 {
            start as u32
        } else {
            (start + pow2(scale_bits) - 1) as u32
        },
    }
}

/// `sym` was prepared from some valid symbol.
pub open spec fn is_prepared_64(sym: Rans64EncSymbol) -> bool {
    exists|start: nat, freq: nat, scale_bits: nat|
        valid_symbol(start, freq, scale_bits, 31) && sym == prepare_64(start, freq, scale_bits)
}

/// The reciprocal quotient computed by a prepared symbol.
pub open spec fn r64_quotient(sym: Rans64EncSymbol, x: nat) -> nat {
    (x * sym.freq_rcp as nat) / two_pow_64() / pow2(sym.freq_rcp_shift as nat)
}

/// One prepared put: the units emitted and the new state.
pub open spec fn r64_put_prepared(x: nat, sym: Rans64EncSymbol) -> (Seq<u32>, nat) {
    let r = r64_renorm(x, sym.x_max_hi as nat * two_pow_32());
    (r.0, r.1 + r64_quotient(sym, r.1) * sym.freq_compl as nat + sym.bias as nat)
}

proof fn lemma_pow2_facts_64(scale_bits: nat)
    requires
        scale_bits <= 31,
    ensures
        pow2(scale_bits) * pow2((63 - scale_bits) as nat) == r64_upper(),
        pow2(scale_bits) * pow2((31 - scale_bits) as nat) == 0x8000_0000,
        pow2((31 - scale_bits) as nat) * two_pow_32() == pow2((63 - scale_bits) as nat),
        0 < pow2(scale_bits) <= 0x8000_0000,
        two_pow_32() <= pow2((63 - scale_bits) as nat),
        0 < pow2((31 - scale_bits) as nat),
{
    lemma_pow2_adds(scale_bits, (63 - scale_bits) as nat);
    lemma_pow2_adds(scale_bits, (31 - scale_bits) as nat);
    lemma_pow2_adds((31 - scale_bits) as nat, 32);
    lemma2_to64();
    lemma2_to64_rest();
    lemma_pow2_pos(scale_bits);
    lemma_pow2_pos((31 - scale_bits) as nat);
    if scale_bits < 31 {
        lemma_pow2_strictly_increases(scale_bits, 31);
        lemma_pow2_strictly_increases(32, (63 - scale_bits) as nat);
    }
}

/// The encoding step maps states below `freq * 2^(63 - scale_bits)` below 2^63.
proof fn lemma_r64_step_bound(y: nat, start: nat, freq: nat, scale_bits: nat)
    requires
        valid_symbol(start, freq, scale_bits, 31),
        y < freq * pow2((63 - scale_bits) as nat),
    ensures
        rans_step(y, start, freq, scale_bits) < r64_upper(),
{
    lemma_pow2_facts_64(scale_bits);
    let q: nat = y / freq;
    let r: nat = y % freq;
    let p: nat = pow2((63 - scale_bits) as nat);
    let s: nat = pow2(scale_bits);
    lemma_fundamental_div_mod(y as int, freq as int);
    assert(q < p) by (nonlinear_arith)
        requires
            y == freq * q + r,
            y < freq * p,
            r >= 0,
            freq > 0,
    ;
    assert(q * s + start + r < r64_upper()) by (nonlinear_arith)
        requires
            q < p,
            start + r < s,
            s * p == r64_upper(),
    ;
}

/// A state below 2^64 renormalised by one unit lies below `x_max`.
proof fn lemma_r64_renorm_below(x: nat, freq: nat, scale_bits: nat)
    requires
        x < two_pow_64(),
        0 < freq,
        scale_bits <= 31,
    ensures
        r64_renorm(x, r64_x_max(freq, scale_bits)).1 < r64_x_max(freq, scale_bits),
        r64_renorm(x, r64_x_max(freq, scale_bits)).1 <= x,
{
    lemma_pow2_facts_64(scale_bits);
    lemma_mul_increases(freq as int, pow2((63 - scale_bits) as nat) as int);
    lemma2_to64_rest();
    lemma_div_strictly_bounded_local(x as int, two_pow_32() as int, two_pow_32() as int);
    lemma_div_is_ordered_by_denominator(x as int, 1, two_pow_32() as int);
}

proof fn lemma_div_strictly_bounded_local(x: int, a: int, b: int)
    requires
        a > 0,
        b >= 0,
        0 <= x < a * b,
    ensures
        x / a < b,
{
    lemma_div_by_multiple(b, a);
    lemma_mul_is_commutative(a, b);
    lemma_div_by_multiple_is_strongly_ordered(x, a * b, b, a);
}

/// Prepared encoder symbol operations.
impl Rans64EncSymbol {
    /// Create a prepared encoder symbol.
    pub fn new(start: Freq, freq: Freq, scale_bits: Freq) -> (s: Self)
        requires
            valid_symbol(start as nat, freq as nat, scale_bits as nat, 31),
        ensures
            s == prepare_64(start as nat, freq as nat, scale_bits as nat),
            is_prepared_64(s),
    {
        proof {
            lemma_pow2_facts_64(scale_bits as nat);
            lemma_u32_shl_is_mul(1, scale_bits);
            lemma_mul_upper_bound(
                freq as int,
                pow2(scale_bits as nat) as int,
                pow2((31 - scale_bits) as nat) as int,
                pow2((31 - scale_bits) as nat) as int,
            );
            lemma_u32_shl_is_mul(freq, (31 - scale_bits) as u32);
        }
        let scale: u32 = 1u32 << scale_bits;
        let min_bits: u32 = 31;
        let x_max_hi: u32 = freq << (min_bits - scale_bits);
        let freq_rcp: u64;
        let freq_rcp_shift: u32;
        let bias: u32;
        if freq > 1 {
            let shift: u32 = reciprocal_shift(freq);
            freq_rcp = compute_reciprocal_u64(freq);
            freq_rcp_shift = shift - 1;
            bias = start;
        } else {
            proof {
                assert(!0u64 == u64::MAX) by (bit_vector);
            }
            freq_rcp = !0u64;
            freq_rcp_shift = 0;
            bias = start + scale - 1;
        }
        let freq_compl: u32 = scale - freq;
        let s = Self { x_max_hi, freq_rcp_shift, freq_rcp, freq_compl, bias };
        proof {
            assert(valid_symbol(start as nat, freq as nat, scale_bits as nat, 31) && s
                == prepare_64(start as nat, freq as nat, scale_bits as nat));
        }
        s
    }

    /// Checked constructor: rejects `scale_bits` outside `[2, 31]` and
    /// out-of-range `(start, freq)`.
    pub fn try_new(start: Freq, freq: Freq, scale_bits: Freq) -> (r: Result<Self, RawRansError>)
        ensures
            (scale_bits < 2 || scale_bits > 31) ==> r == Err::<Self, RawRansError>(
                RawRansError::InvalidScaleBits { provided: scale_bits, max_safe: 31 },
            ),
            (2 <= scale_bits <= 31 && !valid_symbol(start as nat, freq as nat, scale_bits as nat, 31))
                ==> r == Err::<Self, RawRansError>(RawRansError::InvalidParameters),
            (2 <= scale_bits <= 31 && valid_symbol(start as nat, freq as nat, scale_bits as nat, 31))
                ==> r == Ok::<Self, RawRansError>(
                prepare_64(start as nat, freq as nat, scale_bits as nat),
            ),
    {
        match check_symbol(start, freq, scale_bits, 31) {
            Ok(()) => Ok(Self::new(start, freq, scale_bits)),
            Err(e) => Err(e),
        }
    }

    /// Fast division by the symbol's frequency through its reciprocal.
    pub fn quotient(&self, x: u64) -> (q: u64)
        requires
            self.freq_rcp_shift < 64,
        ensures
            q == r64_quotient(*self, x as nat),
    {
        fast_quotient_u64(x, self.freq_rcp, self.freq_rcp_shift)
    }
}

/// Prepared decoder symbol.
#[derive(Debug, Clone, Copy)]
pub struct Rans64DecSymbol {
    /// Symbol frequency.
    pub freq: Freq,
    /// Cumulative start of the symbol.
    pub start: Freq,
}

impl Rans64DecSymbol {
    /// Create a decoder symbol.
    pub fn new(start: Freq, freq: Freq) -> (s: Self)
        requires
            freq > 0,
        ensures
            s.start == start,
            s.freq == freq,
    {
        Self { freq, start }
    }
}

/// Raw rANS encoder (Rans64 variant) writing into a `VecSink<u32>`.
#[derive(Debug)]
pub struct Rans64Encoder {
    sink: VecSink<u32>,
    state: u64,
}

impl Rans64Encoder {
    /// The encoder's state.
    pub closed spec fn spec_state(&self) -> nat {
        self.state as nat
    }

    /// The encoded output written to the sink so far.
    pub closed spec fn output(&self) -> Seq<u32> {
        self.sink.view_encoded()
    }

    /// The state always fits in 63 bits.
    pub closed spec fn wf(&self) -> bool {
        self.state < r64_upper()
    }

    /// Create an encoder over `sink`, with the state at the lower bound.
    pub fn new(sink: VecSink<u32>) -> (e: Self)
        ensures
            e.wf(),
            e.spec_state() == r64_lower(),
            e.output() == sink.view_encoded(),
    {
        Self { sink, state: 0x8000_0000 }
    }

    /// Borrow the sink.
    pub fn sink(&self) -> (s: &VecSink<u32>)
        ensures
            s.view_encoded() == self.output(),
    {
        &self.sink
    }

    /// Give back the sink.
    pub fn into_sink(self) -> (s: VecSink<u32>)
        ensures
            s.view_encoded() == self.output(),
    {
        self.sink
    }

    /// The current state.
    pub fn state(&self) -> (s: u64)
        ensures
            s == self.spec_state(),
    {
        self.state
    }

    /// Reset the state to the lower bound (the sink is kept).
    pub fn reset(&mut self)
        ensures
            final(self).wf(),
            final(self).spec_state() == r64_lower(),
            final(self).output() == old(self).output(),
    {
        self.state = 0x8000_0000;
    }

    fn renormalize(&mut self, x_max: u64) -> (x: u64)
        ensures
            final(self).state == old(self).state,
            x == r64_renorm(old(self).state as nat, x_max as nat).1,
            final(self).output() == r64_renorm(old(self).state as nat, x_max as nat).0.reverse()
                + old(self).output(),
    {
        let mut x: u64 = self.state;
        if x >= x_max {
            let unit: u32 = x as u32;
            proof {
                assert(unit == (x % 0x1_0000_0000) as u32) by (bit_vector)
                    requires
                        unit == x as u32,
                ;
                assert(x >> 32u64 == x / 0x1_0000_0000) by (bit_vector);
                assert(seq![unit].reverse() =~= seq![unit]);
            }
            self.sink.write(unit);
            x = x >> 32u64;
        } else {
            proof {
                assert(Seq::<u32>::empty().reverse() =~= Seq::<u32>::empty());
                assert(Seq::<u32>::empty() + old(self).output() =~= old(self).output());
            }
        }
        x
    }

    /// Put a raw symbol `(start, freq)` at `scale_bits`, dividing exactly.
    pub fn put_raw(&mut self, start: Freq, freq: Freq, scale_bits: Freq)
        requires
            old(self).wf(),
            valid_symbol(start as nat, freq as nat, scale_bits as nat, 31),
        ensures
            final(self).wf(),
            final(self).spec_state() == r64_put_raw(
                old(self).spec_state(),
                start as nat,
                freq as nat,
                scale_bits as nat,
            ).1,
            final(self).output() == r64_put_raw(
                old(self).spec_state(),
                start as nat,
                freq as nat,
                scale_bits as nat,
            ).0.reverse() + old(self).output(),
    {
        proof {
            lemma_pow2_facts_64(scale_bits as nat);
            lemma_mul_upper_bound(
                freq as int,
                pow2(scale_bits as nat) as int,
                pow2((63 - scale_bits) as nat) as int,
                pow2((63 - scale_bits) as nat) as int,
            );
            lemma_u64_shl_is_mul(freq as u64, (63 - scale_bits) as u64);
        }
        let x_max: u64 = (freq as u64) << ((63 - scale_bits) as u64);
        let x: u64 = self.renormalize(x_max);
        proof {
            lemma2_to64_rest();
            lemma_r64_renorm_below(self.state as nat, freq as nat, scale_bits as nat);
            lemma_r64_step_bound(x as nat, start as nat, freq as nat, scale_bits as nat);
            lemma_fundamental_div_mod(x as int, freq as int);
            lemma_mul_upper_bound(
                (x / freq as u64) as int,
                (x / freq as u64) as int,
                pow2(scale_bits as nat) as int,
                pow2(scale_bits as nat) as int,
            );
            lemma_u64_shl_is_mul(x / freq as u64, scale_bits as u64);
        }
        let shift: u64 = scale_bits as u64;
        self.state = ((x / freq as u64) << shift) + (start as u64) + (x % freq as u64);
    }

    /// Checked raw put: rejects `scale_bits` outside `[2, 31]` and
    /// out-of-range `(start, freq)` without touching the encoder.
    pub fn try_put_raw(&mut self, start: Freq, freq: Freq, scale_bits: Freq) -> (r: Result<
        (),
        RawRansError,
    >)
        requires
            old(self).wf(),
        ensures
            final(self).wf(),
            r == check_symbol_spec(start as nat, freq as nat, scale_bits as nat, 31),
            r is Ok ==> final(self).spec_state() == r64_put_raw(
                old(self).spec_state(),
                start as nat,
                freq as nat,
                scale_bits as nat,
            ).1 && final(self).output() == r64_put_raw(
                old(self).spec_state(),
                start as nat,
                freq as nat,
                scale_bits as nat,
            ).0.reverse() + old(self).output(),
            r is Err ==> *final(self) == *old(self),
    {
        match check_symbol(start, freq, scale_bits, 31) {
            Ok(()) => {
                self.put_raw(start, freq, scale_bits);
                Ok(())
            },
            Err(e) => Err(e),
        }
    }

    /// Put a prepared symbol (fast reciprocal-multiply path).
    pub fn put(&mut self, symbol: &Rans64EncSymbol)
        requires
            old(self).wf(),
            is_prepared_64(*symbol),
        ensures
            final(self).wf(),
            final(self).spec_state() == r64_put_prepared(old(self).spec_state(), *symbol).1,
            final(self).output() == r64_put_prepared(old(self).spec_state(), *symbol).0.reverse()
                + old(self).output(),
    {
        let ghost (start, freq, scale_bits) = choose|start: nat, freq: nat, scale_bits: nat|
            valid_symbol(start, freq, scale_bits, 31) && *symbol == prepare_64(
                start,
                freq,
                scale_bits,
            );
        proof {
            lemma_pow2_facts_64(scale_bits);
            lemma_mul_upper_bound(
                freq as int,
                pow2(scale_bits) as int,
                pow2((31 - scale_bits) as nat) as int,
                pow2((31 - scale_bits) as nat) as int,
            );
            lemma_mul_strictly_positive(freq as int, pow2((31 - scale_bits) as nat) as int);
            lemma_mul_is_associative(
                freq as int,
                pow2((31 - scale_bits) as nat) as int,
                two_pow_32() as int,
            );
            assert(symbol.x_max_hi as nat * two_pow_32() == r64_x_max(freq, scale_bits));
            lemma2_to64();
            lemma2_to64_rest();
            assert(symbol.x_max_hi as nat <= 0x8000_0000);
            lemma_u64_shl_is_mul(symbol.x_max_hi as u64, 32);
            if freq > 1 {
                lemma_rcp_shift(freq);
            }
        }
        let mut x_max: u64 = symbol.x_max_hi as u64;
        x_max = x_max << 32u64;
        let x: u64 = self.renormalize(x_max);
        proof {
            lemma_r64_renorm_below(self.state as nat, freq, scale_bits);
        }
        let q: u64 = symbol.quotient(x);
        proof {
            lemma_prepared_step_bound_64(x as nat, start, freq, scale_bits, q as nat);
        }
        self.state = x + (q * symbol.freq_compl as u64) + symbol.bias as u64;
    }

    /// Write the final state to the sink (two units, low first in the output).
    pub fn flush(&mut self)
        ensures
            final(self).spec_state() == old(self).spec_state(),
            final(self).wf() == old(self).wf(),
            final(self).output() == r64_flush_units(old(self).spec_state()) + old(self).output(),
    {
        let x: u64 = self.state;
        let hi: u32 = (x >> 32u64) as u32;
        let lo: u32 = x as u32;
        proof {
            assert(hi == ((x / 0x1_0000_0000) % 0x1_0000_0000) as u32) by (bit_vector)
                requires
                    hi == (x >> 32u64) as u32,
            ;
            assert(lo == (x % 0x1_0000_0000) as u32) by (bit_vector)
                requires
                    lo == x as u32,
            ;
        }
        self.sink.write(hi);
        self.sink.write(lo);
        proof {
            assert(self.output() =~= r64_flush_units(x as nat) + old(self).output());
        }
    }
}

/// With the exact reciprocal, the prepared step equals the raw step
/// whenever the renormalised state is positive or the frequency exceeds one.
proof fn lemma_prepared_matches_raw_step_64(y: nat, start: nat, freq: nat, scale_bits: nat)
    requires
        valid_symbol(start, freq, scale_bits, 31),
        y < freq * pow2((63 - scale_bits) as nat),
        y >= 1 || freq >= 2,
    ensures
        ({
            let sym = prepare_64(start, freq, scale_bits);
            y + r64_quotient(sym, y) * sym.freq_compl as nat + sym.bias as nat == rans_step(
                y,
                start,
                freq,
                scale_bits,
            )
        }),
{
    let sym = prepare_64(start, freq, scale_bits);
    lemma_pow2_facts_64(scale_bits);
    let s: nat = pow2(scale_bits);
    assert(y < r64_upper()) by (nonlinear_arith)
        requires
            y < freq * pow2((63 - scale_bits) as nat),
            freq <= s,
            s * pow2((63 - scale_bits) as nat) == r64_upper(),
    ;
    lemma_fundamental_div_mod(y as int, freq as int);
    if freq >= 2 {
        lemma_rcp_shift(freq);
        lemma_reciprocal64_fits(freq);
        lemma_fast_quotient_u64_is_division(y, freq);
        assert(r64_quotient(sym, y) == y / freq);
        let q: int = y as int / freq as int;
        let r: int = y as int % freq as int;
        assert(y + q * (s - freq) + start == q * s + start + r) by (nonlinear_arith)
            requires
                y == freq * q + r,
                s >= freq,
        ;
    } else {
        lemma2_to64();
        lemma2_to64_rest();
        lemma_freq_one_quotient(y);
        assert(pow2(0) == 1);
        assert(sym.freq_rcp == u64::MAX);
        assert(sym.freq_rcp_shift == 0);
        let t: nat = (y * (u64::MAX as nat)) / two_pow_64();
        assert(t == y - 1);
        lemma_div_basics(t as int);
        assert(t / pow2(0) == t);
        assert(r64_quotient(sym, y) == y - 1);
        assert(y + (y - 1) * (s - 1) + start + s - 1 == y * s + start) by (nonlinear_arith)
            requires
                y >= 1,
        ;
        assert(y % 1 == 0 && y / 1 == y);
    }
}

/// The prepared step never leaves the 63-bit state range.
proof fn lemma_prepared_step_bound_64(y: nat, start: nat, freq: nat, scale_bits: nat, q: nat)
    requires
        valid_symbol(start, freq, scale_bits, 31),
        y < freq * pow2((63 - scale_bits) as nat),
        q == r64_quotient(prepare_64(start, freq, scale_bits), y),
    ensures
        ({
            let sym = prepare_64(start, freq, scale_bits);
            &&& q * (sym.freq_compl as nat) <= u64::MAX
            &&& y + q * (sym.freq_compl as nat) <= u64::MAX
            &&& y + q * (sym.freq_compl as nat) + (sym.bias as nat) < r64_upper()
        }),
{
    let sym = prepare_64(start, freq, scale_bits);
    lemma_pow2_facts_64(scale_bits);
    lemma_mul_nonnegative(q as int, sym.freq_compl as int);
    if y >= 1 || freq >= 2 {
        lemma_prepared_matches_raw_step_64(y, start, freq, scale_bits);
        lemma_r64_step_bound(y, start, freq, scale_bits);
    } else {
        assert(y == 0);
        assert(q == 0) by {
            lemma2_to64();
            lemma2_to64_rest();
            assert(0 * (u64::MAX as nat) == 0);
            assert(pow2(0) == 1);
        }
        lemma_mul_basics(sym.freq_compl as int);
        lemma2_to64();
        assert(sym.bias as nat == start + pow2(scale_bits) - 1);
    }
}

/// Raw rANS decoder (Rans64 variant) reading from a slice source.
#[derive(Debug)]
pub struct Rans64Decoder<'a> {
    source: SliceSource<'a, u32>,
    state: u64,
}

impl<'a> Rans64Decoder<'a> {
    /// The decoder's state.
    pub closed spec fn spec_state(&self) -> nat {
        self.state as nat
    }

    /// All units of the source.
    pub closed spec fn data(&self) -> Seq<u32> {
        self.source.data()
    }

    /// The source's read position.
    pub closed spec fn pos(&self) -> nat {
        self.source.pos()
    }

    /// Create a decoder over `source`, with the state at the lower bound.
    pub fn new(source: SliceSource<'a, u32>) -> (d: Self)
        ensures
            d.spec_state() == r64_lower(),
            d.data() == source.data(),
            d.pos() == source.pos(),
    {
        Self { source, state: 0x8000_0000 }
    }

    /// Create a decoder over `source` resuming from a saved `state`.
    pub fn from_state(source: SliceSource<'a, u32>, state: u64) -> (d: Self)
        ensures
            d.spec_state() == state,
            d.data() == source.data(),
            d.pos() == source.pos(),
    {
        Self { source, state }
    }

    /// Borrow the source.
    pub fn source(&self) -> (s: &SliceSource<'a, u32>)
        ensures
            s.data() == self.data(),
            s.pos() == self.pos(),
    {
        &self.source
    }

    /// Give back the source.
    pub fn into_source(self) -> (s: SliceSource<'a, u32>)
        ensures
            s.data() == self.data(),
            s.pos() == self.pos(),
    {
        self.source
    }

    /// The current state.
    pub fn state(&self) -> (s: u64)
        ensures
            s == self.spec_state(),
    {
        self.state
    }

    /// Whether the state is back at the lower bound (end of message).
    pub fn check_eof(&self) -> (b: bool)
        ensures
            b == (self.spec_state() == r64_lower()),
    {
        self.state == 0x8000_0000
    }

    /// Read the initial state (two units, low first). Fails, leaving the
    /// state unchanged, when fewer than two units remain or the value is
    /// below the lower bound.
    pub fn init(&mut self) -> (ok: bool)
        ensures
            final(self).data() == old(self).data(),
            ok == r64_init(old(self).data(), old(self).pos()) is Some,
            ok ==> ({
                let r = r64_init(old(self).data(), old(self).pos())->0;
                final(self).spec_state() == r.0 && final(self).pos() == r.1
            }),
            !ok ==> final(self).spec_state() == old(self).spec_state(),
    {
        let ghost d: Seq<u32> = self.source.data();
        let ghost p: nat = self.source.pos();
        let mut u0: u32 = 0;
        if !self.source.read(&mut u0) {
            return false;
        }
        let mut u1: u32 = 0;
        if !self.source.read(&mut u1) {
            return false;
        }
        let v1: u64 = (u1 as u64) << 32u64;
        proof {
            assert(v1 == u1 as u64 * 0x1_0000_0000) by (bit_vector)
                requires
                    v1 == (u1 as u64) << 32u64,
            ;
        }
        let x: u64 = (u0 as u64) + v1;
        if x < 0x8000_0000 {
            return false;
        }
        self.state = x;
        true
    }

    /// The low `scale_bits` bits of the state (the cumulative frequency slot).
    pub fn get(&self, scale_bits: Freq) -> (r: Freq)
        requires
            scale_bits <= 31,
        ensures
            r == self.spec_state() % pow2(scale_bits as nat),
    {
        proof {
            lemma_pow2_facts_64(scale_bits as nat);
            lemma_u32_shl_is_mul(1, scale_bits);
            lemma_u32_low_bits_mask_is_mod(self.state as u32, scale_bits as nat);
        }
        let mask: u32 = (1u32 << scale_bits) - 1;
        let st: u64 = self.state;
        let low: u32 = st as u32;
        proof {
            assert(low == st % 0x1_0000_0000) by (bit_vector)
                requires
                    low == st as u32,
            ;
            assert(mask == low_bits_mask(scale_bits as nat));
            lemma2_to64();
            lemma_pow2_adds(scale_bits as nat, (32 - scale_bits) as nat);
            lemma_pow2_pos((32 - scale_bits) as nat);
            lemma_mod_mod(
                self.state as int,
                pow2(scale_bits as nat) as int,
                pow2((32 - scale_bits) as nat) as int,
            );
            lemma_mul_is_commutative(
                pow2(scale_bits as nat) as int,
                pow2((32 - scale_bits) as nat) as int,
            );
        }
        low & mask
    }

    /// Checked `get`: rejects `scale_bits` outside `[2, 31]`.
    pub fn try_get(&self, scale_bits: Freq) -> (r: Result<Freq, RawRansError>)
        ensures
            (scale_bits < 2 || scale_bits > 31) ==> r == Err::<Freq, RawRansError>(
                RawRansError::InvalidScaleBits { provided: scale_bits, max_safe: 31 },
            ),
            2 <= scale_bits <= 31 ==> r == Ok::<Freq, RawRansError>(
                (self.spec_state() % pow2(scale_bits as nat)) as Freq,
            ),
    {
        if scale_bits < 2 || scale_bits > 31 {
            return Err(RawRansError::InvalidScaleBits { provided: scale_bits, max_safe: 31 });
        }
        Ok(self.get(scale_bits))
    }

    /// Advance past `(start, freq)`. The new state is committed only when
    /// renormalisation finds enough units; otherwise the state is unchanged
    /// and `false` is returned.
    pub fn advance(&mut self, start: Freq, freq: Freq, scale_bits: Freq) -> (ok: bool)
        requires
            scale_bits <= 31,
            start < pow2(scale_bits as nat),
            0 < freq <= pow2(scale_bits as nat) - start,
            old(self).spec_state() % pow2(scale_bits as nat) >= start,
        ensures
            final(self).data() == old(self).data(),
            ok == r64_advance(
                old(self).spec_state(),
                start as nat,
                freq as nat,
                scale_bits as nat,
                old(self).data(),
                old(self).pos(),
            ) is Some,
            ok ==> ({
                let r = r64_advance(
                    old(self).spec_state(),
                    start as nat,
                    freq as nat,
                    scale_bits as nat,
                    old(self).data(),
                    old(self).pos(),
                )->0;
                final(self).spec_state() == r.0 && final(self).pos() == r.1
            }),
            !ok ==> final(self).spec_state() == old(self).spec_state(),
            !ok ==> final(self).pos() == if old(self).pos() >= old(self).data().len() {
                old(self).pos()
            } else {
                old(self).data().len()
            },
    {
        proof {
            lemma_pow2_facts_64(scale_bits as nat);
            lemma_u32_shl_is_mul(1, scale_bits);
            lemma_u64_low_bits_mask_is_mod(self.state, scale_bits as nat);
            lemma_u64_shr_is_div(self.state, scale_bits as u64);
        }
        let scale: u32 = 1u32 << scale_bits;
        let x: u64 = self.state;
        let mask: u64 = (scale - 1) as u64;
        proof {
            assert(mask == low_bits_mask(scale_bits as nat));
        }
        let value: u64 = x & mask;
        let shift: u64 = scale_bits as u64;
        let hi: u64 = x >> shift;
        proof {
            lemma2_to64_rest();
            lemma_unstep_fits(x as nat, start as nat, freq as nat, scale_bits as nat, 64);
        }
        let mut x_new: u64 = (freq as u64) * hi + (value - start as u64);
        let mut renorm_unit: u32 = 0;
        if x_new < 0x8000_0000 {
            let ghost p: nat = self.source.pos();
            if !self.source.read(&mut renorm_unit) {
                return false;
            }
            proof {
                assert((x_new << 32u64) == x_new * 0x1_0000_0000) by (bit_vector)
                    requires
                        x_new < 0x8000_0000u64,
                ;
            }
            x_new = (x_new << 32u64) + renorm_unit as u64;
        }
        self.state = x_new;
        true
    }

    /// Checked `advance`: rejects `scale_bits` outside `[2, 31]`, invalid
    /// `(start, freq)`, and a state whose slot lies below `start`.
    pub fn try_advance(&mut self, start: Freq, freq: Freq, scale_bits: Freq) -> (r: Result<
        bool,
        RawRansError,
    >)
        ensures
            final(self).data() == old(self).data(),
            check_symbol_spec(start as nat, freq as nat, scale_bits as nat, 31) is Err ==> r
                == Err::<bool, RawRansError>(
                check_symbol_spec(start as nat, freq as nat, scale_bits as nat, 31)->Err_0,
            ) && *final(self) == *old(self),
            check_symbol_spec(start as nat, freq as nat, scale_bits as nat, 31) is Ok
                && old(self).spec_state() % pow2(scale_bits as nat) < start ==> r == Err::<
                bool,
                RawRansError,
            >(RawRansError::InvalidParameters) && *final(self) == *old(self),
            check_symbol_spec(start as nat, freq as nat, scale_bits as nat, 31) is Ok
                && old(self).spec_state() % pow2(scale_bits as nat) >= start ==> r == Ok::<
                bool,
                RawRansError,
            >(
                r64_advance(
                    old(self).spec_state(),
                    start as nat,
                    freq as nat,
                    scale_bits as nat,
                    old(self).data(),
                    old(self).pos(),
                ) is Some,
            ),
            check_symbol_spec(start as nat, freq as nat, scale_bits as nat, 31) is Ok
                && old(self).spec_state() % pow2(scale_bits as nat) >= start ==> match r64_advance(
                old(self).spec_state(),
                start as nat,
                freq as nat,
                scale_bits as nat,
                old(self).data(),
                old(self).pos(),
            ) {
                Some(r) => final(self).spec_state() == r.0 && final(self).pos() == r.1,
                None => final(self).spec_state() == old(self).spec_state() && final(self).pos() == if old(
                    self,
                ).pos() >= old(self).data().len() {
                    old(self).pos()
                } else {
                    old(self).data().len()
                },
            },
    {
        match check_symbol(start, freq, scale_bits, 31) {
            Err(e) => Err(e),
            Ok(()) => {
                if self.get(scale_bits) < start {
                    return Err(RawRansError::InvalidParameters);
                }
                Ok(self.advance(start, freq, scale_bits))
            },
        }
    }

    /// Advance using a prepared decoder symbol.
    pub fn advance_symbol(&mut self, symbol: &Rans64DecSymbol, scale_bits: Freq) -> (ok: bool)
        requires
            scale_bits <= 31,
            symbol.start < pow2(scale_bits as nat),
            0 < symbol.freq <= pow2(scale_bits as nat) - symbol.start,
            old(self).spec_state() % pow2(scale_bits as nat) >= symbol.start,
        ensures
            final(self).data() == old(self).data(),
            ok == r64_advance(
                old(self).spec_state(),
                symbol.start as nat,
                symbol.freq as nat,
                scale_bits as nat,
                old(self).data(),
                old(self).pos(),
            ) is Some,
            ok ==> ({
                let r = r64_advance(
                    old(self).spec_state(),
                    symbol.start as nat,
                    symbol.freq as nat,
                    scale_bits as nat,
                    old(self).data(),
                    old(self).pos(),
                )->0;
                final(self).spec_state() == r.0 && final(self).pos() == r.1
            }),
            !ok ==> final(self).spec_state() == old(self).spec_state(),
            !ok ==> final(self).pos() == if old(self).pos() >= old(self).data().len() {
                old(self).pos()
            } else {
                old(self).data().len()
            },
    {
        self.advance(symbol.start, symbol.freq, scale_bits)
    }
}

/// Single-step roundtrip law (Rans64): for an encoder state in
/// `[2^31, 2^63)` and a valid symbol (`scale_bits <= 31`), a raw put yields
/// a state in the same range whose slot lies in `[start, start + freq)`, and
/// the decoder, reading the emitted units back, returns to the original
/// state having consumed exactly those units.
pub proof fn lemma_r64_step_roundtrip(
    x: nat,
    start: nat,
    freq: nat,
    scale_bits: nat,
    data: Seq<u32>,
    pos: nat,
)
    requires
        r64_lower() <= x < r64_upper(),
        valid_symbol(start, freq, scale_bits, 31),
        pos + r64_put_raw(x, start, freq, scale_bits).0.len() <= data.len(),
        data.subrange(pos as int, pos as int + r64_put_raw(x, start, freq, scale_bits).0.len())
            == r64_put_raw(x, start, freq, scale_bits).0.reverse(),
    ensures
        ({
            let (us, x2) = r64_put_raw(x, start, freq, scale_bits);
            &&& r64_lower() <= x2 < r64_upper()
            &&& start <= x2 % pow2(scale_bits) < start + freq
            &&& r64_advance(x2, start, freq, scale_bits, data, pos) == Some((x, pos + us.len()))
        }),
{
    let x_max: nat = r64_x_max(freq, scale_bits);
    let r = r64_renorm(x, x_max);
    let y: nat = r.1;
    let x2: nat = rans_step(y, start, freq, scale_bits);
    lemma_pow2_facts_64(scale_bits);
    lemma2_to64();
    lemma2_to64_rest();
    let s: nat = pow2(scale_bits);
    let lo: nat = pow2((31 - scale_bits) as nat);
    lemma_r64_renorm_below(x, freq, scale_bits);
    lemma_r64_step_bound(y, start, freq, scale_bits);
    assert(freq * lo <= r64_lower()) by (nonlinear_arith)
        requires
            freq <= s,
            s * lo == 0x8000_0000,
    ;
    // lower bound on the renormalised state
    if x >= x_max {
        assert(x_max == (freq * lo) * two_pow_32()) by (nonlinear_arith)
            requires
                x_max == freq * pow2((63 - scale_bits) as nat),
                lo * two_pow_32() == pow2((63 - scale_bits) as nat),
        ;
        lemma_div_is_ordered(x_max as int, x as int, two_pow_32() as int);
        lemma_div_multiples_vanish((freq * lo) as int, two_pow_32() as int);
        lemma_mul_is_commutative((freq * lo) as int, two_pow_32() as int);
    }
    assert(y >= freq * lo);
    lemma_fundamental_div_mod(y as int, freq as int);
    let q: nat = y / freq;
    let rr: nat = y % freq;
    assert(q >= lo) by (nonlinear_arith)
        requires
            y == freq * q + rr,
            rr < freq,
            y >= freq * lo,
            freq > 0,
    ;
    assert(x2 >= r64_lower()) by (nonlinear_arith)
        requires
            x2 == q * s + start + rr,
            q >= lo,
            s * lo == 0x8000_0000,
    ;
    assert(start + rr < s);
    lemma_fundamental_div_mod_converse(x2 as int, s as int, q as int, (start + rr) as int);
    assert(rans_unstep(x2, start, freq, scale_bits) == y);
    if x >= x_max {
        lemma_div_strictly_bounded_local(x as int, two_pow_32() as int, r64_lower() as int);
        assert(data[pos as int] == data.subrange(pos as int, pos as int + 1)[0]);
        assert(data[pos as int] == (x % two_pow_32()) as u32);
        lemma_fundamental_div_mod(x as int, two_pow_32() as int);
        lemma_mod_bound(x as int, two_pow_32() as int);
    }
}

/// Flush/init law (Rans64): the two flushed units of a state of at least
/// 2^31 are read back by `init` as that state.
pub proof fn lemma_r64_flush_init(x: nat, data: Seq<u32>, pos: nat)
    requires
        r64_lower() <= x < two_pow_64(),
        pos + 2 <= data.len(),
        data.subrange(pos as int, pos as int + 2) == r64_flush_units(x),
    ensures
        r64_init(data, pos) == Some((x, pos + 2)),
{
    let v: u64 = x as u64;
    assert((v % 0x1_0000_0000) + ((v / 0x1_0000_0000) % 0x1_0000_0000) * 0x1_0000_0000 == v)
        by (bit_vector);
    assert(data[pos as int] == data.subrange(pos as int, pos as int + 2)[0]);
    assert(data[pos as int + 1] == data.subrange(pos as int, pos as int + 2)[1]);
}

/// The effect of one operation on a Rans64 encoder in state `x`.
pub open spec fn r64_apply(x: nat, op: RawOp) -> (Seq<u32>, nat) {
    if op.3 {
        r64_put_prepared(x, prepare_64(op.0, op.1, op.2))
    } else {
        r64_put_raw(x, op.0, op.1, op.2)
    }
}

/// The output and final state of applying `ops` (in order) from state `x`:
/// the output is in encoded order (last emitted first).
pub open spec fn r64_encode_all(x: nat, ops: Seq<RawOp>) -> (Seq<u32>, nat)
    decreases ops.len(),
{
    if ops.len() == 0 {
        (Seq::empty(), x)
    } else {
        let prev = r64_encode_all(x, ops.drop_last());
        let step = r64_apply(prev.1, ops.last());
        (step.0.reverse() + prev.0, step.1)
    }
}

/// Applying `a` and then `b` is applying `a + b`.
pub proof fn lemma_r64_encode_all_append(x: nat, a: Seq<RawOp>, b: Seq<RawOp>)
    ensures
        ({
            let ra = r64_encode_all(x, a);
            let rb = r64_encode_all(ra.1, b);
            r64_encode_all(x, a + b) == (rb.0 + ra.0, rb.1)
        }),
    decreases b.len(),
{
    let ra = r64_encode_all(x, a);
    if b.len() == 0 {
        assert(a + b =~= a);
        assert(Seq::<u32>::empty() + ra.0 =~= ra.0);
    } else {
        assert((a + b).drop_last() =~= a + b.drop_last());
        assert((a + b).last() == b.last());
        lemma_r64_encode_all_append(x, a, b.drop_last());
        let rb0 = r64_encode_all(ra.1, b.drop_last());
        let step = r64_apply(rb0.1, b.last());
        assert(step.0.reverse() + (rb0.0 + ra.0) =~= (step.0.reverse() + rb0.0) + ra.0);
    }
}

/// Decode `ops` from last to first: each step checks that the slot lies in
/// the operation's range and advances past it.
pub open spec fn r64_decode_all(x: nat, ops: Seq<RawOp>, data: Seq<u32>, pos: nat) -> Option<
    (nat, nat),
>
    decreases ops.len(),
{
    if ops.len() == 0 {
        Some((x, pos))
    } else {
        let op = ops.last();
        if op.0 <= x % pow2(op.2) < op.0 + op.1 {
            match r64_advance(x, op.0, op.1, op.2, data, pos) {
                Some((x2, p2)) => r64_decode_all(x2, ops.drop_last(), data, p2),
                None => None,
            }
        } else {
            None
        }
    }
}

/// In the operational range, a prepared operation acts as its raw form.
pub(crate) proof fn lemma_r64_apply_raw(x: nat, op: RawOp)
    requires
        r64_lower() <= x < r64_upper(),
        valid_symbol(op.0, op.1, op.2, 31),
    ensures
        r64_apply(x, op) == r64_put_raw(x, op.0, op.1, op.2),
{
    if op.3 {
        lemma_r64_prepared_matches_raw(x, op.0, op.1, op.2);
    }
}

/// Valid operations keep a Rans64 encoder state in `[2^31, 2^63)`.
pub proof fn lemma_r64_encode_all_range(x: nat, ops: Seq<RawOp>)
    requires
        r64_lower() <= x < r64_upper(),
        all_valid(ops, 31),
    ensures
        r64_lower() <= r64_encode_all(x, ops).1 < r64_upper(),
    decreases ops.len(),
{
    if ops.len() > 0 {
        let prev = r64_encode_all(x, ops.drop_last());
        lemma_all_valid_drop_last(ops, 31);
        lemma_r64_encode_all_range(x, ops.drop_last());
        let last = ops.last();
        lemma_r64_apply_raw(prev.1, last);
        let us = r64_put_raw(prev.1, last.0, last.1, last.2).0;
        assert(us.reverse().subrange(0, us.len() as int) =~= us.reverse());
        lemma_r64_step_roundtrip(prev.1, last.0, last.1, last.2, us.reverse(), 0);
    }
}

/// Roundtrip law for raw rANS operation sequences (Rans64), general form:
/// the output of applying `ops` from state `x`, placed at `pos` of any
/// data, decodes (last operation first) back to state `x` consuming exactly
/// that output.
pub proof fn lemma_r64_decode_encoded(x: nat, ops: Seq<RawOp>, data: Seq<u32>, pos: nat)
    requires
        r64_lower() <= x < r64_upper(),
        all_valid(ops, 31),
        pos + r64_encode_all(x, ops).0.len() <= data.len(),
        data.subrange(pos as int, pos as int + r64_encode_all(x, ops).0.len()) == r64_encode_all(
            x,
            ops,
        ).0,
    ensures
        r64_decode_all(r64_encode_all(x, ops).1, ops, data, pos) == Some(
            (x, pos + r64_encode_all(x, ops).0.len()),
        ),
    decreases ops.len(),
{
    if ops.len() > 0 {
        let init = ops.drop_last();
        let prev = r64_encode_all(x, init);
        lemma_all_valid_drop_last(ops, 31);
        lemma_r64_encode_all_range(x, init);
        let last = ops.last();
        lemma_r64_apply_raw(prev.1, last);
        let step = r64_put_raw(prev.1, last.0, last.1, last.2);
        let k: nat = step.0.len();
        let all = r64_encode_all(x, ops).0;
        assert(all == step.0.reverse() + prev.0);
        assert(data.subrange(pos as int, pos as int + k) =~= step.0.reverse()) by {
            assert(data.subrange(pos as int, pos as int + k) =~= data.subrange(
                pos as int,
                pos as int + all.len(),
            ).subrange(0, k as int));
        }
        lemma_r64_step_roundtrip(prev.1, last.0, last.1, last.2, data, pos);
        assert(data.subrange(pos as int + k, pos as int + k + prev.0.len()) =~= prev.0) by {
            assert(data.subrange(pos as int + k, pos as int + k + prev.0.len()) =~= data.subrange(
                pos as int,
                pos as int + all.len(),
            ).subrange(k as int, all.len() as int));
        }
        lemma_r64_decode_encoded(x, init, data, pos + k);
    }
}

/// Roundtrip law for a whole raw message (Rans64): applying `ops` from a
/// fresh encoder (state 2^31) and flushing gives a message that `init`
/// reads, that decodes every operation last-first with each slot in its
/// symbol's range, and that ends at the lower bound (EOF) with every unit
/// consumed.
pub proof fn lemma_r64_message_roundtrip(ops: Seq<RawOp>)
    requires
        all_valid(ops, 31),
    ensures
        ({
            let (out, xn) = r64_encode_all(r64_lower(), ops);
            let msg = r64_flush_units(xn) + out;
            &&& r64_init(msg, 0) == Some((xn, 2nat))
            &&& r64_decode_all(xn, ops, msg, 2) == Some((r64_lower(), msg.len()))
        }),
{
    let (out, xn) = r64_encode_all(r64_lower(), ops);
    let msg = r64_flush_units(xn) + out;
    lemma_r64_encode_all_range(r64_lower(), ops);
    assert(msg.subrange(0, 2) =~= r64_flush_units(xn));
    lemma2_to64_rest();
    lemma_r64_flush_init(xn, msg, 0);
    assert(msg.subrange(2, 2 + out.len() as int) =~= out);
    lemma_r64_decode_encoded(r64_lower(), ops, msg, 2);
}

/// Prepared-symbol law (Rans64): putting the prepared form of a valid
/// symbol is the same as the raw put, for every state in `[1, 2^63)`.
pub proof fn lemma_r64_prepared_matches_raw(x: nat, start: nat, freq: nat, scale_bits: nat)
    requires
        1 <= x < r64_upper(),
        valid_symbol(start, freq, scale_bits, 31),
    ensures
        r64_put_prepared(x, prepare_64(start, freq, scale_bits)) == r64_put_raw(
            x,
            start,
            freq,
            scale_bits,
        ),
{
    let sym = prepare_64(start, freq, scale_bits);
    let x_max: nat = r64_x_max(freq, scale_bits);
    lemma_pow2_facts_64(scale_bits);
    lemma2_to64();
    lemma2_to64_rest();
    lemma_mul_upper_bound(
        freq as int,
        pow2(scale_bits) as int,
        pow2((31 - scale_bits) as nat) as int,
        pow2((31 - scale_bits) as nat) as int,
    );
    lemma_mul_strictly_positive(freq as int, pow2((31 - scale_bits) as nat) as int);
    lemma_mul_is_associative(freq as int, pow2((31 - scale_bits) as nat) as int, two_pow_32() as int);
    assert(sym.x_max_hi as nat * two_pow_32() == x_max);
    let y: nat = r64_renorm(x, x_max).1;
    lemma_r64_renorm_below(x, freq, scale_bits);
    if x >= x_max {
        lemma_mul_increases(freq as int, pow2((63 - scale_bits) as nat) as int);
        lemma_div_is_ordered(two_pow_32() as int, x as int, two_pow_32() as int);
        lemma_div_basics(two_pow_32() as int);
    }
    assert(y >= 1);
    lemma_prepared_matches_raw_step_64(y, start, freq, scale_bits);
}

} // verus!
