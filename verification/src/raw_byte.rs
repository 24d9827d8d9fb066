//! The RansByte variant of the raw rANS coder: 32-bit state (31 state
//! bits), 8-bit units, lower bound 2^23, four units per flushed state.
use crate::arithmetic::{
    fast_quotient_u32, compute_reciprocal_u32, lemma_fast_quotient_u32_is_division, lemma_rcp_shift,
    lemma_reciprocal32_fits, rcp_shift, reciprocal32, reciprocal_shift, two_pow_32,
};
use crate::error::RawRansError;
use crate::sink::{Sink, VecSink};
use crate::source::{SliceSource, Source};
use crate::Freq;
use vstd::arithmetic::div_mod::*;
use vstd::arithmetic::mul::*;
use vstd::arithmetic::power2::*;
use vstd::bits::*;
use vstd::prelude::*;

verus! {

/// `LOWER_BOUND` of the RansByte state: 2^23.
pub open spec fn byte_lower() -> nat {
    0x80_0000
}

/// Exclusive upper bound of the RansByte state: 2^31.
pub open spec fn byte_upper() -> nat {
    0x8000_0000
}

/// A symbol `(start, freq)` is valid at `scale_bits` for a variant whose
/// largest scale is `max_scale_bits`.
pub open spec fn valid_symbol(start: nat, freq: nat, scale_bits: nat, max_scale_bits: nat) -> bool {
    &&& 0 < scale_bits <= max_scale_bits
    &&& start < pow2(scale_bits)
    &&& 0 < freq
    &&& freq <= pow2(scale_bits) - start
}

/// Encoder renormalisation: while `x >= x_max`, emit the low byte and shift
/// right by 8. Returns the emitted units (in emission order) and the final state.
pub open spec fn byte_renorm(x: nat, x_max: nat) -> (Seq<u8>, nat)
    decreases x,
{
    if x_max > 0 && x >= x_max {
        let rest = byte_renorm(x / 256, x_max);
        (seq![(x % 256) as u8] + rest.0, rest.1)
    } else {
        (Seq::empty(), x)
    }
}

/// `x_max` of a raw put: `freq << (31 - scale_bits)`.
pub open spec fn byte_x_max(freq: nat, scale_bits: nat) -> nat {
    freq * pow2((31 - scale_bits) as nat)
}

/// The rANS encoding step on a renormalised state `y`.
pub open spec fn rans_step(y: nat, start: nat, freq: nat, scale_bits: nat) -> nat {
    (y / freq) * pow2(scale_bits) + start + y % freq
}

/// One raw put: the units emitted (emission order) and the new state.
pub open spec fn byte_put_raw(x: nat, start: nat, freq: nat, scale_bits: nat) -> (Seq<u8>, nat) {
    let r = byte_renorm(x, byte_x_max(freq, scale_bits));
    (r.0, rans_step(r.1, start, freq, scale_bits))
}

/// The little-endian bytes of a 32-bit state, as the flush leaves them in
/// the encoded output.
pub open spec fn le_bytes4(x: nat) -> Seq<u8> {
    seq![
        (x % 256) as u8,
        ((x / 0x100) % 256) as u8,
        ((x / 0x1_0000) % 256) as u8,
        ((x / 0x100_0000) % 256) as u8,
    ]
}

/// The state read back from four little-endian bytes at `pos`.
pub open spec fn le_value4(data: Seq<u8>, pos: int) -> nat {
    data[pos] as nat + data[pos + 1] as nat * 0x100 + data[pos + 2] as nat * 0x1_0000
        + data[pos + 3] as nat * 0x100_0000
}

/// Decoder initialisation: `Some((state, new_pos))` when four units are
/// available and form a state of at least the lower bound.
pub open spec fn byte_init(data: Seq<u8>, pos: nat) -> Option<(nat, nat)> {
    if pos + 4 <= data.len() && le_value4(data, pos as int) >= byte_lower() {
        Some((le_value4(data, pos as int), pos + 4))
    } else {
        None
    }
}

/// Decoder renormalisation: while the state is below the lower bound, read
/// one more unit. `None` when the data runs out.
pub open spec fn byte_dec_renorm(x: nat, data: Seq<u8>, pos: nat) -> Option<(nat, nat)>
    decreases data.len() - pos,
{
    if x >= byte_lower() {
        Some((x, pos))
    } else if pos < data.len() {
        byte_dec_renorm(x * 256 + data[pos as int] as nat, data, pos + 1)
    } else {
        None
    }
}

/// The rANS decoding step (before renormalisation).
pub open spec fn rans_unstep(x: nat, start: nat, freq: nat, scale_bits: nat) -> nat {
    (freq * (x / pow2(scale_bits)) + x % pow2(scale_bits) - start) as nat
}

/// One decoder advance past `(start, freq)`.
pub open spec fn byte_advance(
    x: nat,
    start: nat,
    freq: nat,
    scale_bits: nat,
    data: Seq<u8>,
    pos: nat,
) -> Option<(nat, nat)> {
    byte_dec_renorm(rans_unstep(x, start, freq, scale_bits), data, pos)
}

/// Prepared encoder symbol (reciprocal form of `(start, freq)`).
#[derive(Debug, Clone, Copy)]
pub struct RansByteEncSymbol {
    /// `freq << (31 - scale_bits)`.
    pub x_max_hi: Freq,
    /// Shift applied after the reciprocal multiply.
    pub freq_rcp_shift: u32,
    /// Fixed-point reciprocal of the frequency.
    pub freq_rcp: u32,
    /// `scale - freq`.
    pub freq_compl: Freq,
    /// `start`, or `start + scale - 1` when `freq == 1`.
    pub bias: Freq,
}

/// The prepared symbol for `(start, freq)` at `scale_bits`.
pub open spec fn prepare_byte(start: nat, freq: nat, scale_bits: nat) -> RansByteEncSymbol {
    RansByteEncSymbol {
        x_max_hi: (freq * pow2((31 - scale_bits) as nat)) as u32,
        freq_rcp_shift: if freq > 1 {
            (rcp_shift(freq) - 1 + 32) as u32
        } else {
            32u32
        },
        freq_rcp: if freq > 1 {
            reciprocal32(freq) as u32
        } else {
            u32::MAX
        },
        freq_compl: (pow2(scale_bits) - freq) as u32,
        bias: if freq > 1 {
            start as u32
        } else {
            (start + pow2(scale_bits) - 1) as u32
        },
    }
}

/// `sym` was prepared from some valid symbol.
pub open spec fn is_prepared_byte(sym: RansByteEncSymbol) -> bool {
    exists|start: nat, freq: nat, scale_bits: nat|
        valid_symbol(start, freq, scale_bits, 30) && sym == prepare_byte(start, freq, scale_bits)
}

/// The reciprocal quotient computed by a prepared symbol.
pub open spec fn byte_quotient(sym: RansByteEncSymbol, x: nat) -> nat {
    ((x * sym.freq_rcp as nat) / pow2(sym.freq_rcp_shift as nat)) % two_pow_32()
}

/// One prepared put: the units emitted (emission order) and the new state.
pub open spec fn byte_put_prepared(x: nat, sym: RansByteEncSymbol) -> (Seq<u8>, nat) {
    let r = byte_renorm(x, sym.x_max_hi as nat);
    (r.0, r.1 + byte_quotient(sym, r.1) * sym.freq_compl as nat + sym.bias as nat)
}

proof fn lemma_pow2_facts(scale_bits: nat)
    requires
        scale_bits <= 31,
    ensures
        pow2(scale_bits) * pow2((31 - scale_bits) as nat) == byte_upper(),
        0 < pow2(scale_bits) <= byte_upper(),
        0 < pow2((31 - scale_bits) as nat) <= byte_upper(),
{
    lemma_pow2_adds(scale_bits, (31 - scale_bits) as nat);
    lemma2_to64();
    lemma_pow2_pos(scale_bits);
    lemma_pow2_pos((31 - scale_bits) as nat);
    if scale_bits < 31 {
        lemma_pow2_strictly_increases(scale_bits, 31);
    }
    if scale_bits > 0 {
        lemma_pow2_strictly_increases((31 - scale_bits) as nat, 31);
    }
}

/// Renormalisation leaves a state below `x_max` and emits bytes only.
proof fn lemma_byte_renorm_below(x: nat, x_max: nat)
    requires
        x_max > 0,
    ensures
        byte_renorm(x, x_max).1 < x_max,
        byte_renorm(x, x_max).1 <= x,
    decreases x,
{
    if x >= x_max {
        lemma_byte_renorm_below(x / 256, x_max);
    }
}

/// The encoding step keeps the state below 2^31 and below
/// `freq * 2^(31 - scale_bits)` inputs map into the 31-bit range.
pub proof fn lemma_rans_step_bound(y: nat, start: nat, freq: nat, scale_bits: nat)
    requires
        valid_symbol(start, freq, scale_bits, 31),
        y < freq * pow2((31 - scale_bits) as nat),
    ensures
        rans_step(y, start, freq, scale_bits) < byte_upper(),
{
    lemma_pow2_facts(scale_bits);
    let q: nat = y / freq;
    let r: nat = y % freq;
    let p: nat = pow2((31 - scale_bits) as nat);
    let s: nat = pow2(scale_bits);
    lemma_fundamental_div_mod(y as int, freq as int);
    assert(q < p) by (nonlinear_arith)
        requires
            y == freq * q + r,
            y < freq * p,
            r >= 0,
            freq > 0,
    ;
    assert(q * s + start + r < byte_upper()) by (nonlinear_arith)
        requires
            q < p,
            start + r < s,
            s * p == byte_upper(),
    ;
}

/// Prepared encoder symbol operations.
impl RansByteEncSymbol {
    /// Create a prepared encoder symbol.
    pub fn new(start: Freq, freq: Freq, scale_bits: Freq) -> (s: Self)
        requires
            valid_symbol(start as nat, freq as nat, scale_bits as nat, 30),
        ensures
            s == prepare_byte(start as nat, freq as nat, scale_bits as nat),
            is_prepared_byte(s),
    {
        proof {
            lemma_pow2_facts(scale_bits as nat);
            lemma_u32_shl_is_mul(1, scale_bits);
            lemma_mul_upper_bound(
                freq as int,
                pow2(scale_bits as nat) as int,
                pow2((31 - scale_bits) as nat) as int,
                pow2((31 - scale_bits) as nat) as int,
            );
            lemma_u32_shl_is_mul(freq, (31 - scale_bits) as u32);
        }
        let scale: u32 = 1u32 << scale_bits;
        let min_bits: u32 = 31;
        let x_max_hi: u32 = freq << (min_bits - scale_bits);
        let freq_rcp: u32;
        let mut freq_rcp_shift: u32;
        let bias: u32;
        if freq > 1 {
            let shift: u32 = reciprocal_shift(freq);
            freq_rcp = compute_reciprocal_u32(freq);
            freq_rcp_shift = shift - 1;
            bias = start;
        } else {
            proof {
                assert(!0u32 == u32::MAX) by (bit_vector);
            }
            freq_rcp = !0u32;
            freq_rcp_shift = 0;
            bias = start + scale - 1;
        }
        freq_rcp_shift += 32;
        let freq_compl: u32 = scale - freq;
        let s = Self { x_max_hi, freq_rcp_shift, freq_rcp, freq_compl, bias };
        proof {
            assert(valid_symbol(start as nat, freq as nat, scale_bits as nat, 30) && s
                == prepare_byte(start as nat, freq as nat, scale_bits as nat));
        }
        s
    }

    /// Checked constructor: rejects `scale_bits` outside `[2, 30]` and
    /// out-of-range `(start, freq)`.
    pub fn try_new(start: Freq, freq: Freq, scale_bits: Freq) -> (r: Result<Self, RawRansError>)
        ensures
            (scale_bits < 2 || scale_bits > 30) ==> r == Err::<Self, RawRansError>(
                RawRansError::InvalidScaleBits { provided: scale_bits, max_safe: 30 },
            ),
            (2 <= scale_bits <= 30 && !valid_symbol(start as nat, freq as nat, scale_bits as nat, 30))
                ==> r == Err::<Self, RawRansError>(RawRansError::InvalidParameters),
            (2 <= scale_bits <= 30 && valid_symbol(start as nat, freq as nat, scale_bits as nat, 30))
                ==> r == Ok::<Self, RawRansError>(
                prepare_byte(start as nat, freq as nat, scale_bits as nat),
            ),
    {
        match check_symbol(start, freq, scale_bits, 30) {
            Ok(()) => Ok(Self::new(start, freq, scale_bits)),
            Err(e) => Err(e),
        }
    }

    /// Fast division by the symbol's frequency through its reciprocal.
    pub fn quotient(&self, x: u32) -> (q: u32)
        requires
            self.freq_rcp_shift < 64,
        ensures
            q == byte_quotient(*self, x as nat),
    {
        fast_quotient_u32(x, self.freq_rcp, self.freq_rcp_shift)
    }
}

/// Validate `(start, freq, scale_bits)` for a variant whose accepted scale
/// range is `[2, max_safe]`.
pub fn check_symbol(start: Freq, freq: Freq, scale_bits: Freq, max_safe: u32) -> (r: Result<
    (),
    RawRansError,
>)
    requires
        max_safe <= 31,
    ensures
        (scale_bits < 2 || scale_bits > max_safe) ==> r == Err::<(), RawRansError>(
            RawRansError::InvalidScaleBits { provided: scale_bits, max_safe },
        ),
        (2 <= scale_bits <= max_safe) ==> (r is Ok <==> valid_symbol(
            start as nat,
            freq as nat,
            scale_bits as nat,
            max_safe as nat,
        )),
        (2 <= scale_bits <= max_safe) && r is Err ==> r == Err::<(), RawRansError>(
            RawRansError::InvalidParameters,
        ),
{
    if scale_bits < 2 || scale_bits > max_safe {
        return Err(RawRansError::InvalidScaleBits { provided: scale_bits, max_safe });
    }
    proof {
        lemma_pow2_facts(scale_bits as nat);
        lemma_u32_shl_is_mul(1, scale_bits);
    }
    let scale: u32 = 1u32 << scale_bits;
    if start >= scale || freq == 0 || freq > scale - start {
        return Err(RawRansError::InvalidParameters);
    }
    Ok(())
}

/// Whether `(start, freq)` is a valid symbol at `scale_bits` with largest
/// scale `max_scale_bits` (see `valid_symbol`).
pub fn symbol_is_valid(start: Freq, freq: Freq, scale_bits: Freq, max_scale_bits: u32) -> (b: bool)
    requires
        max_scale_bits <= 31,
    ensures
        b == valid_symbol(start as nat, freq as nat, scale_bits as nat, max_scale_bits as nat),
{
    if scale_bits == 0 || scale_bits > max_scale_bits {
        return false;
    }
    proof {
        lemma_pow2_facts(scale_bits as nat);
        lemma_u32_shl_is_mul(1, scale_bits);
    }
    let scale: u32 = 1u32 << scale_bits;
    start < scale && freq > 0 && freq <= scale - start
}

/// Prepared decoder symbol.
#[derive(Debug, Clone, Copy)]
pub struct RansByteDecSymbol {
    /// Symbol frequency.
    pub freq: Freq,
    /// Cumulative start of the symbol.
    pub start: Freq,
}

impl RansByteDecSymbol {
    /// Create a decoder symbol.
    pub fn new(start: Freq, freq: Freq) -> (s: Self)
        requires
            freq > 0,
        ensures
            s.start == start,
            s.freq == freq,
    {
        Self { freq, start }
    }
}

/// Raw rANS encoder (RansByte variant) writing into a `VecSink<u8>`.
#[derive(Debug)]
pub struct RansByteEncoder {
    sink: VecSink<u8>,
    state: u32,
}

impl RansByteEncoder {
    /// The encoder's state.
    pub closed spec fn spec_state(&self) -> nat {
        self.state as nat
    }

    /// The encoded output written to the sink so far.
    pub closed spec fn output(&self) -> Seq<u8> {
        self.sink.view_encoded()
    }

    /// The state always fits in 31 bits.
    pub closed spec fn wf(&self) -> bool {
        self.state < byte_upper()
    }

    /// Create an encoder over `sink`, with the state at the lower bound.
    pub fn new(sink: VecSink<u8>) -> (e: Self)
        ensures
            e.wf(),
            e.spec_state() == byte_lower(),
            e.output() == sink.view_encoded(),
    {
        Self { sink, state: 0x80_0000 }
    }

    /// Borrow the sink.
    pub fn sink(&self) -> (s: &VecSink<u8>)
        ensures
            s.view_encoded() == self.output(),
    {
        &self.sink
    }

    /// Give back the sink.
    pub fn into_sink(self) -> (s: VecSink<u8>)
        ensures
            s.view_encoded() == self.output(),
    {
        self.sink
    }

    /// The current state.
    pub fn state(&self) -> (s: u32)
        ensures
            s == self.spec_state(),
    {
        self.state
    }

    /// Reset the state to the lower bound (the sink is kept).
    pub fn reset(&mut self)
        ensures
            final(self).wf(),
            final(self).spec_state() == byte_lower(),
            final(self).output() == old(self).output(),
    {
        self.state = 0x80_0000;
    }

    fn renormalize(&mut self, x_max: u32) -> (x: u32)
        requires
            x_max > 0,
        ensures
            final(self).state == old(self).state,
            x == byte_renorm(old(self).state as nat, x_max as nat).1,
            final(self).output() == byte_renorm(old(self).state as nat, x_max as nat).0.reverse()
                + old(self).output(),
    {
        let mut x: u32 = self.state;
        let ghost x0: nat = self.state as nat;
        let ghost emitted: Seq<u8> = Seq::empty();
        while x >= x_max
            invariant
                x_max > 0,
                self.state == old(self).state,
                x0 == old(self).state,
                byte_renorm(x0, x_max as nat).0 == emitted + byte_renorm(x as nat, x_max as nat).0,
                byte_renorm(x0, x_max as nat).1 == byte_renorm(x as nat, x_max as nat).1,
                self.output() == emitted.reverse() + old(self).output(),
            decreases x,
        {
            let unit: u8 = x as u8;
            proof {
                assert(unit == (x % 256) as u8) by (bit_vector)
                    requires
                        unit == x as u8,
                ;
                assert(x >> 8 == x / 256) by (bit_vector);
                let rest = byte_renorm(x as nat / 256, x_max as nat);
                assert(byte_renorm(x as nat, x_max as nat).0 == seq![unit] + rest.0);
                assert(emitted + (seq![unit] + rest.0) == (emitted + seq![unit]) + rest.0);
                assert((emitted + seq![unit]).reverse() =~= seq![unit] + emitted.reverse());
            }
            self.sink.write(unit);
            proof {
                emitted = emitted + seq![unit];
            }
            x = x >> 8;
        }
        proof {
            assert(emitted + Seq::<u8>::empty() == emitted);
        }
        x
    }

    /// Put a raw symbol `(start, freq)` at `scale_bits`, dividing exactly.
    pub fn put_raw(&mut self, start: Freq, freq: Freq, scale_bits: Freq)
        requires
            old(self).wf(),
            valid_symbol(start as nat, freq as nat, scale_bits as nat, 30),
        ensures
            final(self).wf(),
            final(self).spec_state() == byte_put_raw(
                old(self).spec_state(),
                start as nat,
                freq as nat,
                scale_bits as nat,
            ).1,
            final(self).output() == byte_put_raw(
                old(self).spec_state(),
                start as nat,
                freq as nat,
                scale_bits as nat,
            ).0.reverse() + old(self).output(),
    {
        proof {
            lemma_pow2_facts(scale_bits as nat);
            lemma_mul_upper_bound(
                freq as int,
                pow2(scale_bits as nat) as int,
                pow2((31 - scale_bits) as nat) as int,
                pow2((31 - scale_bits) as nat) as int,
            );
            lemma_mul_strictly_positive(freq as int, pow2((31 - scale_bits) as nat) as int);
            lemma_u32_shl_is_mul(freq, (31 - scale_bits) as u32);
        }
        let x_max: u32 = freq << (31 - scale_bits);
        let x: u32 = self.renormalize(x_max);
        proof {
            lemma_byte_renorm_below(self.state as nat, x_max as nat);
            lemma_rans_step_bound(x as nat, start as nat, freq as nat, scale_bits as nat);
            lemma_fundamental_div_mod(x as int, freq as int);
            lemma_mul_upper_bound(
                (x / freq) as int,
                (x / freq) as int,
                pow2(scale_bits as nat) as int,
                pow2(scale_bits as nat) as int,
            );
            lemma_u32_shl_is_mul(x / freq, scale_bits);
        }
        let shift: u32 = scale_bits;
        self.state = ((x / freq) << shift) + start + (x % freq);
    }

    /// Checked raw put: rejects `scale_bits` outside `[2, 30]` and
    /// out-of-range `(start, freq)` without touching the encoder.
    pub fn try_put_raw(&mut self, start: Freq, freq: Freq, scale_bits: Freq) -> (r: Result<
        (),
        RawRansError,
    >)
        requires
            old(self).wf(),
        ensures
            final(self).wf(),
            r == check_symbol_spec(start as nat, freq as nat, scale_bits as nat, 30),
            r is Ok ==> final(self).spec_state() == byte_put_raw(
                old(self).spec_state(),
                start as nat,
                freq as nat,
                scale_bits as nat,
            ).1 && final(self).output() == byte_put_raw(
                old(self).spec_state(),
                start as nat,
                freq as nat,
                scale_bits as nat,
            ).0.reverse() + old(self).output(),
            r is Err ==> *final(self) == *old(self),
    {
        match check_symbol(start, freq, scale_bits, 30) {
            Ok(()) => {
                self.put_raw(start, freq, scale_bits);
                Ok(())
            },
            Err(e) => Err(e),
        }
    }

    /// Put a prepared symbol (fast reciprocal-multiply path).
    pub fn put(&mut self, symbol: &RansByteEncSymbol)
        requires
            old(self).wf(),
            is_prepared_byte(*symbol),
        ensures
            final(self).wf(),
            final(self).spec_state() == byte_put_prepared(old(self).spec_state(), *symbol).1,
            final(self).output() == byte_put_prepared(old(self).spec_state(), *symbol).0.reverse()
                + old(self).output(),
    {
        let ghost (start, freq, scale_bits) = choose|start: nat, freq: nat, scale_bits: nat|
            valid_symbol(start, freq, scale_bits, 30) && *symbol == prepare_byte(
                start,
                freq,
                scale_bits,
            );
        proof {
            lemma_pow2_facts(scale_bits);
            lemma_mul_upper_bound(
                freq as int,
                pow2(scale_bits) as int,
                pow2((31 - scale_bits) as nat) as int,
                pow2((31 - scale_bits) as nat) as int,
            );
            lemma_mul_strictly_positive(freq as int, pow2((31 - scale_bits) as nat) as int);
            if freq > 1 {
                lemma_rcp_shift(freq);
            }
        }
        let x_max: u32 = symbol.x_max_hi;
        let x: u32 = self.renormalize(x_max);
        proof {
            lemma_byte_renorm_below(self.state as nat, x_max as nat);
        }
        let q: u32 = symbol.quotient(x);
        proof {
            lemma_prepared_step_bound(x as nat, start, freq, scale_bits, q as nat);
        }
        self.state = x + (q * symbol.freq_compl) + symbol.bias;
    }

    /// Write the final state to the sink (little-endian, four units).
    pub fn flush(&mut self)
        ensures
            final(self).spec_state() == old(self).spec_state(),
            final(self).wf() == old(self).wf(),
            final(self).output() == le_bytes4(old(self).spec_state()) + old(self).output(),
    {
        let x: u32 = self.state;
        let b3: u8 = (x >> 24u32) as u8;
        let b2: u8 = (x >> 16u32) as u8;
        let b1: u8 = (x >> 8u32) as u8;
        let b0: u8 = x as u8;
        proof {
            assert(b3 == ((x / 0x100_0000) % 256) as u8) by (bit_vector)
                requires
                    b3 == (x >> 24u32) as u8,
            ;
            assert(b2 == ((x / 0x1_0000) % 256) as u8) by (bit_vector)
                requires
                    b2 == (x >> 16u32) as u8,
            ;
            assert(b1 == ((x / 0x100) % 256) as u8) by (bit_vector)
                requires
                    b1 == (x >> 8u32) as u8,
            ;
            assert(b0 == (x % 256) as u8) by (bit_vector)
                requires
                    b0 == x as u8,
            ;
        }
        self.sink.write(b3);
        self.sink.write(b2);
        self.sink.write(b1);
        self.sink.write(b0);
        proof {
            assert(self.output() =~= le_bytes4(x as nat) + old(self).output());
        }
    }
}

/// The checked-symbol result as a specification.
pub open spec fn check_symbol_spec(start: nat, freq: nat, scale_bits: nat, max_safe: nat) -> Result<
    (),
    RawRansError,
> {
    if scale_bits < 2 || scale_bits > max_safe {
        Err(RawRansError::InvalidScaleBits { provided: scale_bits as u32, max_safe: max_safe as u32 })
    } else if valid_symbol(start, freq, scale_bits, max_safe) {
        Ok(())
    } else {
        Err(RawRansError::InvalidParameters)
    }
}

/// With the exact reciprocal, the prepared step equals the raw step
/// whenever the renormalised state is positive or the frequency exceeds one.
proof fn lemma_prepared_matches_raw_step(y: nat, start: nat, freq: nat, scale_bits: nat)
    requires
        valid_symbol(start, freq, scale_bits, 30),
        y < freq * pow2((31 - scale_bits) as nat),
        y >= 1 || freq >= 2,
    ensures
        ({
            let sym = prepare_byte(start, freq, scale_bits);
            y + byte_quotient(sym, y) * sym.freq_compl as nat + sym.bias as nat == rans_step(
                y,
                start,
                freq,
                scale_bits,
            )
        }),
{
    let sym = prepare_byte(start, freq, scale_bits);
    lemma_pow2_facts(scale_bits);
    let s: nat = pow2(scale_bits);
    assert(y < byte_upper()) by (nonlinear_arith)
        requires
            y < freq * pow2((31 - scale_bits) as nat),
            freq <= s,
            s * pow2((31 - scale_bits) as nat) == byte_upper(),
    ;
    lemma_fundamental_div_mod(y as int, freq as int);
    if freq >= 2 {
        lemma_rcp_shift(freq);
        lemma_reciprocal32_bounds(freq);
        lemma_fast_quotient_u32_is_division(y, freq);
        assert(byte_quotient(sym, y) == y / freq);
        let q: int = y as int / freq as int;
        let r: int = y as int % freq as int;
        assert(y + q * (s - freq) + start == q * s + start + r) by (nonlinear_arith)
            requires
                y == freq * q + r,
                s >= freq,
        ;
    } else {
        lemma2_to64();
        lemma_freq_one_u32(y);
        assert(byte_quotient(sym, y) == y - 1);
        assert(y + (y - 1) * (s - 1) + start + s - 1 == y * s + start) by (nonlinear_arith)
            requires
                y >= 1,
        ;
        assert(y % 1 == 0 && y / 1 == y);
    }
}

/// `reciprocal32` of a frequency of at least two fits in 32 bits.
proof fn lemma_reciprocal32_bounds(freq: nat)
    requires
        2 <= freq <= 0x8000_0000,
    ensures
        reciprocal32(freq) < two_pow_32(),
        reciprocal32(freq) >= 0,
{
    lemma_rcp_shift(freq);
    let s: nat = rcp_shift(freq);
    lemma_pow2_pos(s + 31);
    lemma_div_pos_is_pos((pow2(s + 31) + freq - 1) as int, freq as int);
    lemma_reciprocal32_fits(freq);
}

/// The freq-one reciprocal on a 32-bit state: `(y * (2^32 - 1)) >> 32 == y - 1`.
proof fn lemma_freq_one_u32(y: nat)
    requires
        1 <= y < two_pow_32(),
    ensures
        ((y * (u32::MAX as nat)) / pow2(32)) % two_pow_32() == y - 1,
{
    lemma2_to64();
    assert(y * (u32::MAX as nat) == (y - 1) * two_pow_32() + (two_pow_32() - y)) by (nonlinear_arith);
    lemma_fundamental_div_mod_converse(
        (y * (u32::MAX as nat)) as int,
        two_pow_32() as int,
        y - 1,
        two_pow_32() - y,
    );
    lemma_small_mod((y - 1) as nat, two_pow_32());
}

/// The prepared step never leaves the 31-bit state range.
proof fn lemma_prepared_step_bound(y: nat, start: nat, freq: nat, scale_bits: nat, q: nat)
    requires
        valid_symbol(start, freq, scale_bits, 30),
        y < freq * pow2((31 - scale_bits) as nat),
        q == byte_quotient(prepare_byte(start, freq, scale_bits), y),
    ensures
        ({
            let sym = prepare_byte(start, freq, scale_bits);
            &&& q * sym.freq_compl as nat <= u32::MAX
            &&& y + q * sym.freq_compl as nat <= u32::MAX
            &&& y + q * (sym.freq_compl as nat) + (sym.bias as nat) < byte_upper()
        }),
{
    let sym = prepare_byte(start, freq, scale_bits);
    lemma_pow2_facts(scale_bits);
    lemma_mul_nonnegative(q as int, sym.freq_compl as int);
    if y >= 1 || freq >= 2 {
        lemma_prepared_matches_raw_step(y, start, freq, scale_bits);
        lemma_rans_step_bound(y, start, freq, scale_bits);
    } else {
        assert(y == 0);
        assert(q == 0) by {
            lemma2_to64();
            assert(0 * (u32::MAX as nat) == 0);
        }
        lemma_mul_basics(sym.freq_compl as int);
        lemma2_to64();
        if scale_bits < 30 {
            lemma_pow2_strictly_increases(scale_bits, 30);
        }
        assert(sym.bias as nat == start + pow2(scale_bits) - 1);
    }
}

/// Raw rANS decoder (RansByte variant) reading from a slice source.
#[derive(Debug)]
pub struct RansByteDecoder<'a> {
    source: SliceSource<'a, u8>,
    state: u32,
}

impl<'a> RansByteDecoder<'a> {
    /// The decoder's state.
    pub closed spec fn spec_state(&self) -> nat {
        self.state as nat
    }

    /// All units of the source.
    pub closed spec fn data(&self) -> Seq<u8> {
        self.source.data()
    }

    /// The source's read position.
    pub closed spec fn pos(&self) -> nat {
        self.source.pos()
    }

    /// Create a decoder over `source`, with the state at the lower bound.
    pub fn new(source: SliceSource<'a, u8>) -> (d: Self)
        ensures
            d.spec_state() == byte_lower(),
            d.data() == source.data(),
            d.pos() == source.pos(),
    {
        Self { source, state: 0x80_0000 }
    }

    /// Create a decoder over `source` resuming from a saved `state`.
    pub fn from_state(source: SliceSource<'a, u8>, state: u32) -> (d: Self)
        ensures
            d.spec_state() == state,
            d.data() == source.data(),
            d.pos() == source.pos(),
    {
        Self { source, state }
    }

    /// Borrow the source.
    pub fn source(&self) -> (s: &SliceSource<'a, u8>)
        ensures
            s.data() == self.data(),
            s.pos() == self.pos(),
    {
        &self.source
    }

    /// Give back the source.
    pub fn into_source(self) -> (s: SliceSource<'a, u8>)
        ensures
            s.data() == self.data(),
            s.pos() == self.pos(),
    {
        self.source
    }

    /// The current state.
    pub fn state(&self) -> (s: u32)
        ensures
            s == self.spec_state(),
    {
        self.state
    }

    /// Whether the state is back at the lower bound (end of message).
    pub fn check_eof(&self) -> (b: bool)
        ensures
            b == (self.spec_state() == byte_lower()),
    {
        self.state == 0x80_0000
    }

    /// Read the initial state (four little-endian units). Fails, leaving the
    /// state unchanged, when fewer than four units remain or the value is
    /// below the lower bound.
    pub fn init(&mut self) -> (ok: bool)
        ensures
            final(self).data() == old(self).data(),
            ok == byte_init(old(self).data(), old(self).pos()) is Some,
            ok ==> ({
                let r = byte_init(old(self).data(), old(self).pos())->0;
                final(self).spec_state() == r.0 && final(self).pos() == r.1
            }),
            !ok ==> final(self).spec_state() == old(self).spec_state(),
    {
        let ghost d: Seq<u8> = self.source.data();
        let ghost p: nat = self.source.pos();
        let mut u0: u8 = 0;
        if !self.source.read(&mut u0) {
            return false;
        }
        let mut u1: u8 = 0;
        if !self.source.read(&mut u1) {
            return false;
        }
        let mut u2: u8 = 0;
        if !self.source.read(&mut u2) {
            return false;
        }
        let mut u3: u8 = 0;
        if !self.source.read(&mut u3) {
            return false;
        }
        let v1: u32 = (u1 as u32) << 8u32;
        let v2: u32 = (u2 as u32) << 16u32;
        let v3: u32 = (u3 as u32) << 24u32;
        proof {
            assert(v1 == u1 as u32 * 0x100) by (bit_vector)
                requires
                    v1 == (u1 as u32) << 8u32,
            ;
            assert(v2 == u2 as u32 * 0x1_0000) by (bit_vector)
                requires
                    v2 == (u2 as u32) << 16u32,
            ;
            assert(v3 == u3 as u32 * 0x100_0000) by (bit_vector)
                requires
                    v3 == (u3 as u32) << 24u32,
            ;
        }
        let x: u32 = (u0 as u32) + v1 + v2 + v3;
        proof {
            assert(x as nat == le_value4(d, p as int));
        }
        if x < 0x80_0000 {
            return false;
        }
        self.state = x;
        true
    }

    /// The low `scale_bits` bits of the state (the cumulative frequency slot).
    pub fn get(&self, scale_bits: Freq) -> (r: Freq)
        requires
            scale_bits <= 31,
        ensures
            r == self.spec_state() % pow2(scale_bits as nat),
    {
        proof {
            lemma_pow2_facts(scale_bits as nat);
            lemma_u32_shl_is_mul(1, scale_bits);
            lemma_u32_low_bits_mask_is_mod(self.state, scale_bits as nat);
            lemma_low_bits_mask_values();
        }
        let mask: u32 = (1u32 << scale_bits) - 1;
        proof {
            assert(mask == low_bits_mask(scale_bits as nat));
        }
        self.state & mask
    }

    /// Checked `get`: rejects `scale_bits` outside `[2, 30]`.
    pub fn try_get(&self, scale_bits: Freq) -> (r: Result<Freq, RawRansError>)
        ensures
            (scale_bits < 2 || scale_bits > 30) ==> r == Err::<Freq, RawRansError>(
                RawRansError::InvalidScaleBits { provided: scale_bits, max_safe: 30 },
            ),
            2 <= scale_bits <= 30 ==> r == Ok::<Freq, RawRansError>(
                (self.spec_state() % pow2(scale_bits as nat)) as Freq,
            ),
    {
        if scale_bits < 2 || scale_bits > 30 {
            return Err(RawRansError::InvalidScaleBits { provided: scale_bits, max_safe: 30 });
        }
        Ok(self.get(scale_bits))
    }

    /// Advance past `(start, freq)`. The new state is committed only when
    /// renormalisation finds enough units; otherwise the state is unchanged
    /// and `false` is returned.
    pub fn advance(&mut self, start: Freq, freq: Freq, scale_bits: Freq) -> (ok: bool)
        requires
            scale_bits <= 31,
            start < pow2(scale_bits as nat),
            0 < freq <= pow2(scale_bits as nat) - start,
            old(self).spec_state() % pow2(scale_bits as nat) >= start,
        ensures
            final(self).data() == old(self).data(),
            ok == byte_advance(
                old(self).spec_state(),
                start as nat,
                freq as nat,
                scale_bits as nat,
                old(self).data(),
                old(self).pos(),
            ) is Some,
            ok ==> ({
                let r = byte_advance(
                    old(self).spec_state(),
                    start as nat,
                    freq as nat,
                    scale_bits as nat,
                    old(self).data(),
                    old(self).pos(),
                )->0;
                final(self).spec_state() == r.0 && final(self).pos() == r.1
            }),
            !ok ==> final(self).spec_state() == old(self).spec_state(),
            !ok ==> final(self).pos() == if old(self).pos() >= old(self).data().len() {
                old(self).pos()
            } else {
                old(self).data().len()
            },
    {
        proof {
            lemma_pow2_facts(scale_bits as nat);
            lemma_u32_shl_is_mul(1, scale_bits);
            lemma_u32_low_bits_mask_is_mod(self.state, scale_bits as nat);
            lemma_u32_shr_is_div(self.state, scale_bits);
        }
        let scale: u32 = 1u32 << scale_bits;
        let x: u32 = self.state;
        let mask: u32 = scale - 1;
        proof {
            assert(mask == low_bits_mask(scale_bits as nat));
        }
        let value: u32 = x & mask;
        let shift: u32 = scale_bits;
        let hi: u32 = x >> shift;
        proof {
            lemma2_to64();
            lemma_unstep_fits(x as nat, start as nat, freq as nat, scale_bits as nat, 32);
        }
        let mut x_new: u32 = freq * hi + (value - start);
        let ghost d: Seq<u8> = self.source.data();
        let mut renorm_unit: u8 = 0;
        while x_new < 0x80_0000
            invariant
                d == self.source.data(),
                d == old(self).source.data(),
                self.source.pos() == old(self).source.pos() || old(self).source.pos() < self.source.pos()
                    <= d.len(),
                self.state == old(self).state,
                x == old(self).state,
                byte_dec_renorm(
                    rans_unstep(x as nat, start as nat, freq as nat, scale_bits as nat),
                    d,
                    old(self).source.pos(),
                ) == byte_dec_renorm(x_new as nat, d, self.source.pos()),
            decreases d.len() - self.source.pos(),
        {
            let ghost p: nat = self.source.pos();
            if !self.source.read(&mut renorm_unit) {
                proof {
                    assert(p >= d.len());
                    assert(byte_dec_renorm(x_new as nat, d, p) is None);
                }
                return false;
            }
            proof {
                assert((x_new << 8u32) == x_new * 256) by (bit_vector)
                    requires
                        x_new < 0x80_0000u32,
                ;
            }
            x_new = (x_new << 8u32) + renorm_unit as u32;
        }
        self.state = x_new;
        true
    }

    /// Checked `advance`: rejects `scale_bits` outside `[2, 30]`, invalid
    /// `(start, freq)`, and a state whose slot lies below `start`.
    pub fn try_advance(&mut self, start: Freq, freq: Freq, scale_bits: Freq) -> (r: Result<
        bool,
        RawRansError,
    >)
        ensures
            final(self).data() == old(self).data(),
            check_symbol_spec(start as nat, freq as nat, scale_bits as nat, 30) is Err ==> r
                == Err::<bool, RawRansError>(
                check_symbol_spec(start as nat, freq as nat, scale_bits as nat, 30)->Err_0,
            ) && *final(self) == *old(self),
            check_symbol_spec(start as nat, freq as nat, scale_bits as nat, 30) is Ok
                && old(self).spec_state() % pow2(scale_bits as nat) < start ==> r == Err::<
                bool,
                RawRansError,
            >(RawRansError::InvalidParameters) && *final(self) == *old(self),
            check_symbol_spec(start as nat, freq as nat, scale_bits as nat, 30) is Ok
                && old(self).spec_state() % pow2(scale_bits as nat) >= start ==> r == Ok::<
                bool,
                RawRansError,
            >(
                byte_advance(
                    old(self).spec_state(),
                    start as nat,
                    freq as nat,
                    scale_bits as nat,
                    old(self).data(),
                    old(self).pos(),
                ) is Some,
            ),
            check_symbol_spec(start as nat, freq as nat, scale_bits as nat, 30) is Ok
                && old(self).spec_state() % pow2(scale_bits as nat) >= start ==> match byte_advance(
                old(self).spec_state(),
                start as nat,
                freq as nat,
                scale_bits as nat,
                old(self).data(),
                old(self).pos(),
            ) {
                Some(r) => final(self).spec_state() == r.0 && final(self).pos() == r.1,
                None => final(self).spec_state() == old(self).spec_state() && final(self).pos() == if old(
                    self,
                ).pos() >= old(self).data().len() {
                    old(self).pos()
                } else {
                    old(self).data().len()
                },
            },
    {
        match check_symbol(start, freq, scale_bits, 30) {
            Err(e) => Err(e),
            Ok(()) => {
                if self.get(scale_bits) < start {
                    return Err(RawRansError::InvalidParameters);
                }
                Ok(self.advance(start, freq, scale_bits))
            },
        }
    }

    /// Advance using a prepared decoder symbol.
    pub fn advance_symbol(&mut self, symbol: &RansByteDecSymbol, scale_bits: Freq) -> (ok: bool)
        requires
            scale_bits <= 31,
            symbol.start < pow2(scale_bits as nat),
            0 < symbol.freq <= pow2(scale_bits as nat) - symbol.start,
            old(self).spec_state() % pow2(scale_bits as nat) >= symbol.start,
        ensures
            final(self).data() == old(self).data(),
            ok == byte_advance(
                old(self).spec_state(),
                symbol.start as nat,
                symbol.freq as nat,
                scale_bits as nat,
                old(self).data(),
                old(self).pos(),
            ) is Some,
            ok ==> ({
                let r = byte_advance(
                    old(self).spec_state(),
                    symbol.start as nat,
                    symbol.freq as nat,
                    scale_bits as nat,
                    old(self).data(),
                    old(self).pos(),
                )->0;
                final(self).spec_state() == r.0 && final(self).pos() == r.1
            }),
            !ok ==> final(self).spec_state() == old(self).spec_state(),
            !ok ==> final(self).pos() == if old(self).pos() >= old(self).data().len() {
                old(self).pos()
            } else {
                old(self).data().len()
            },
    {
        self.advance(symbol.start, symbol.freq, scale_bits)
    }
}

/// The decoding step fits in `bits`-bit arithmetic: `freq * (x >> sb)` and
/// the slot difference never overflow.
pub proof fn lemma_unstep_fits(x: nat, start: nat, freq: nat, scale_bits: nat, bits: nat)
    requires
        scale_bits <= bits,
        x < pow2(bits),
        start < pow2(scale_bits),
        0 < freq <= pow2(scale_bits) - start,
        x % pow2(scale_bits) >= start,
    ensures
        freq * (x / pow2(scale_bits)) + (x % pow2(scale_bits) - start) < pow2(bits),
        freq * (x / pow2(scale_bits)) < pow2(bits),
{
    lemma_pow2_adds(scale_bits, (bits - scale_bits) as nat);
    lemma_pow2_pos(scale_bits);
    let s: nat = pow2(scale_bits);
    let h: nat = x / s;
    let r: nat = x % s;
    lemma_fundamental_div_mod(x as int, s as int);
    assert(h < pow2((bits - scale_bits) as nat)) by (nonlinear_arith)
        requires
            x == s * h + r,
            r >= 0,
            x < pow2(bits),
            pow2(bits) == s * pow2((bits - scale_bits) as nat),
            s > 0,
    ;
    lemma_mod_bound(x as int, s as int);
    assert(freq * h + (r - start) < pow2(bits)) by (nonlinear_arith)
        requires
            h < pow2((bits - scale_bits) as nat),
            r < s,
            r >= start,
            freq + start <= s,
            pow2(bits) == s * pow2((bits - scale_bits) as nat),
    ;
}

/// Renormalisation never drops below `freq * 2^(23 - scale_bits)` when it
/// starts at or above it (RansByte, `scale_bits <= 23`).
proof fn lemma_byte_renorm_lower(z: nat, freq: nat, scale_bits: nat)
    requires
        scale_bits <= 23,
        freq > 0,
        z >= freq * pow2((23 - scale_bits) as nat),
    ensures
        byte_renorm(z, byte_x_max(freq, scale_bits)).1 >= freq * pow2((23 - scale_bits) as nat),
    decreases z,
{
    let x_max: nat = byte_x_max(freq, scale_bits);
    let b: nat = freq * pow2((23 - scale_bits) as nat);
    lemma_pow2_adds((23 - scale_bits) as nat, 8);
    lemma2_to64();
    assert(x_max == b * 256) by (nonlinear_arith)
        requires
            x_max == freq * pow2((31 - scale_bits) as nat),
            b == freq * pow2((23 - scale_bits) as nat),
            pow2((31 - scale_bits) as nat) == pow2((23 - scale_bits) as nat) * 256,
    ;
    lemma_pow2_pos((23 - scale_bits) as nat);
    lemma_mul_strictly_positive(freq as int, pow2((23 - scale_bits) as nat) as int);
    if z >= x_max {
        lemma_div_is_ordered((b * 256) as int, z as int, 256);
        lemma_div_multiples_vanish(b as int, 256);
        lemma_byte_renorm_lower(z / 256, freq, scale_bits);
    }
}

/// The decoder reads back exactly the units that renormalisation emitted:
/// starting from the renormalised state with the emitted units (reversed)
/// at `pos`, decoder renormalisation continues as if it started from `z`
/// after those units.
proof fn lemma_byte_dec_reads(z: nat, x_max: nat, data: Seq<u8>, pos: nat)
    requires
        z < byte_upper(),
        pos + byte_renorm(z, x_max).0.len() <= data.len(),
        data.subrange(pos as int, pos as int + byte_renorm(z, x_max).0.len()) == byte_renorm(
            z,
            x_max,
        ).0.reverse(),
    ensures
        byte_dec_renorm(byte_renorm(z, x_max).1, data, pos) == byte_dec_renorm(
            z,
            data,
            pos + byte_renorm(z, x_max).0.len(),
        ),
    decreases z,
{
    if x_max > 0 && z >= x_max {
        let rest = byte_renorm(z / 256, x_max);
        let us = byte_renorm(z, x_max).0;
        let k: nat = us.len();
        assert(us == seq![(z % 256) as u8] + rest.0);
        assert(us.reverse() =~= rest.0.reverse() + seq![(z % 256) as u8]);
        assert(data.subrange(pos as int, pos as int + rest.0.len()) =~= rest.0.reverse()) by {
            assert(data.subrange(pos as int, pos as int + rest.0.len()) =~= data.subrange(
                pos as int,
                pos as int + k,
            ).subrange(0, rest.0.len() as int));
        }
        lemma_byte_dec_reads(z / 256, x_max, data, pos);
        assert(data[pos as int + rest.0.len()] == (z % 256) as u8) by {
            assert(data[pos as int + rest.0.len()] == data.subrange(pos as int, pos as int + k)[rest.0.len() as int]);
        }
        assert(z / 256 < byte_lower());
        assert((z / 256) * 256 + ((z % 256) as u8) as nat == z);
    }
}

/// Single-step roundtrip law (RansByte): for an encoder state in
/// `[2^23, 2^31)` and a valid symbol with `scale_bits <= 23`, a raw put
/// yields a state in the same range whose slot lies in
/// `[start, start + freq)`, and the decoder, reading the emitted units back,
/// returns to the original state having consumed exactly those units.
pub proof fn lemma_byte_step_roundtrip(
    x: nat,
    start: nat,
    freq: nat,
    scale_bits: nat,
    data: Seq<u8>,
    pos: nat,
)
    requires
        byte_lower() <= x < byte_upper(),
        valid_symbol(start, freq, scale_bits, 23),
        pos + byte_put_raw(x, start, freq, scale_bits).0.len() <= data.len(),
        data.subrange(pos as int, pos as int + byte_put_raw(x, start, freq, scale_bits).0.len())
            == byte_put_raw(x, start, freq, scale_bits).0.reverse(),
    ensures
        ({
            let (us, x2) = byte_put_raw(x, start, freq, scale_bits);
            &&& byte_lower() <= x2 < byte_upper()
            &&& start <= x2 % pow2(scale_bits) < start + freq
            &&& byte_advance(x2, start, freq, scale_bits, data, pos) == Some((x, pos + us.len()))
        }),
{
    let x_max: nat = byte_x_max(freq, scale_bits);
    let r = byte_renorm(x, x_max);
    let y: nat = r.1;
    let x2: nat = rans_step(y, start, freq, scale_bits);
    lemma_pow2_facts(scale_bits);
    lemma_pow2_facts(23);
    lemma2_to64();
    lemma_pow2_adds(scale_bits, (23 - scale_bits) as nat);
    let s: nat = pow2(scale_bits);
    let lo: nat = pow2((23 - scale_bits) as nat);
    lemma_mul_strictly_positive(freq as int, pow2((31 - scale_bits) as nat) as int);
    lemma_byte_renorm_below(x, x_max);
    lemma_rans_step_bound(y, start, freq, scale_bits);
    assert(freq * lo <= byte_lower()) by (nonlinear_arith)
        requires
            freq <= s,
            s * lo == byte_lower(),
    ;
    lemma_byte_renorm_lower(x, freq, scale_bits);
    // decomposition of the new state
    lemma_fundamental_div_mod(y as int, freq as int);
    let q: nat = y / freq;
    let rr: nat = y % freq;
    assert(q >= lo) by (nonlinear_arith)
        requires
            y == freq * q + rr,
            rr < freq,
            y >= freq * lo,
            freq > 0,
    ;
    assert(x2 >= byte_lower()) by (nonlinear_arith)
        requires
            x2 == q * s + start + rr,
            q >= lo,
            s * lo == byte_lower(),
    ;
    assert(start + rr < s);
    lemma_fundamental_div_mod_converse(x2 as int, s as int, q as int, (start + rr) as int);
    assert(rans_unstep(x2, start, freq, scale_bits) == y);
    lemma_byte_dec_reads(x, x_max, data, pos);
}

/// Flush/init law (RansByte): the four flushed units of a state of at
/// least 2^23 are read back by `init` as that state.
pub proof fn lemma_byte_flush_init(x: nat, data: Seq<u8>, pos: nat)
    requires
        byte_lower() <= x < 0x1_0000_0000,
        pos + 4 <= data.len(),
        data.subrange(pos as int, pos as int + 4) == le_bytes4(x),
    ensures
        byte_init(data, pos) == Some((x, pos + 4)),
{
    let v: u32 = x as u32;
    assert((v % 256) + ((v / 0x100) % 256) * 0x100 + ((v / 0x1_0000) % 256) * 0x1_0000 + ((v
        / 0x100_0000) % 256) * 0x100_0000 == v) by (bit_vector);
    assert(data[pos as int] == data.subrange(pos as int, pos as int + 4)[0]);
    assert(data[pos as int + 1] == data.subrange(pos as int, pos as int + 4)[1]);
    assert(data[pos as int + 2] == data.subrange(pos as int, pos as int + 4)[2]);
    assert(data[pos as int + 3] == data.subrange(pos as int, pos as int + 4)[3]);
    assert(le_value4(data, pos as int) == x);
}

/// One coding operation: `(start, freq, scale_bits, prepared)`; `prepared`
/// selects the reciprocal path (`put`) over exact division (`put_raw`).
pub type RawOp = (nat, nat, nat, bool);

/// The effect of one operation on a RansByte encoder in state `x`.
pub open spec fn byte_apply(x: nat, op: RawOp) -> (Seq<u8>, nat) {
    if op.3 {
        byte_put_prepared(x, prepare_byte(op.0, op.1, op.2))
    } else {
        byte_put_raw(x, op.0, op.1, op.2)
    }
}

/// The output and final state of applying `ops` (in order) from state `x`:
/// the output is in encoded order (last emitted first).
pub open spec fn byte_encode_all(x: nat, ops: Seq<RawOp>) -> (Seq<u8>, nat)
    decreases ops.len(),
{
    if ops.len() == 0 {
        (Seq::empty(), x)
    } else {
        let prev = byte_encode_all(x, ops.drop_last());
        let step = byte_apply(prev.1, ops.last());
        (step.0.reverse() + prev.0, step.1)
    }
}

/// Applying `a` and then `b` is applying `a + b`.
pub proof fn lemma_byte_encode_all_append(x: nat, a: Seq<RawOp>, b: Seq<RawOp>)
    ensures
        ({
            let ra = byte_encode_all(x, a);
            let rb = byte_encode_all(ra.1, b);
            byte_encode_all(x, a + b) == (rb.0 + ra.0, rb.1)
        }),
    decreases b.len(),
{
    let ra = byte_encode_all(x, a);
    if b.len() == 0 {
        assert(a + b =~= a);
        assert(Seq::<u8>::empty() + ra.0 =~= ra.0);
    } else {
        assert((a + b).drop_last() =~= a + b.drop_last());
        assert((a + b).last() == b.last());
        lemma_byte_encode_all_append(x, a, b.drop_last());
        let rb0 = byte_encode_all(ra.1, b.drop_last());
        let step = byte_apply(rb0.1, b.last());
        assert(step.0.reverse() + (rb0.0 + ra.0) =~= (step.0.reverse() + rb0.0) + ra.0);
    }
}

/// Decode `ops` from last to first: each step checks that the slot lies in
/// the operation's range and advances past it.
pub open spec fn byte_decode_all(x: nat, ops: Seq<RawOp>, data: Seq<u8>, pos: nat) -> Option<
    (nat, nat),
>
    decreases ops.len(),
{
    if ops.len() == 0 {
        Some((x, pos))
    } else {
        let op = ops.last();
        if op.0 <= x % pow2(op.2) < op.0 + op.1 {
            match byte_advance(x, op.0, op.1, op.2, data, pos) {
                Some((x2, p2)) => byte_decode_all(x2, ops.drop_last(), data, p2),
                None => None,
            }
        } else {
            None
        }
    }
}

/// Every operation is a valid symbol with scale at most `max_scale_bits`.
pub open spec fn all_valid(ops: Seq<RawOp>, max_scale_bits: nat) -> bool {
    forall|i: int|
        0 <= i < ops.len() ==> valid_symbol(
            #[trigger] ops[i].0,
            ops[i].1,
            ops[i].2,
            max_scale_bits,
        )
}

/// Dropping the last operation keeps validity; the last one is valid.
pub proof fn lemma_all_valid_drop_last(ops: Seq<RawOp>, m: nat)
    requires
        all_valid(ops, m),
        ops.len() > 0,
    ensures
        all_valid(ops.drop_last(), m),
        valid_symbol(ops.last().0, ops.last().1, ops.last().2, m),
{
    assert forall|i: int| 0 <= i < ops.drop_last().len() implies valid_symbol(
        #[trigger] ops.drop_last()[i].0,
        ops.drop_last()[i].1,
        ops.drop_last()[i].2,
        m,
    ) by {
        assert(ops.drop_last()[i] == ops[i]);
    }
    assert(valid_symbol(ops[ops.len() - 1].0, ops[ops.len() - 1].1, ops[ops.len() - 1].2, m));
}

/// In the operational range, a prepared operation acts as its raw form.
pub(crate) proof fn lemma_byte_apply_raw(x: nat, op: RawOp)
    requires
        byte_lower() <= x < byte_upper(),
        valid_symbol(op.0, op.1, op.2, 23),
    ensures
        byte_apply(x, op) == byte_put_raw(x, op.0, op.1, op.2),
{
    if op.3 {
        lemma_byte_prepared_matches_raw(x, op.0, op.1, op.2);
    }
}

/// Valid operations keep a RansByte encoder state in `[2^23, 2^31)`.
pub proof fn lemma_byte_encode_all_range(x: nat, ops: Seq<RawOp>)
    requires
        byte_lower() <= x < byte_upper(),
        all_valid(ops, 23),
    ensures
        byte_lower() <= byte_encode_all(x, ops).1 < byte_upper(),
    decreases ops.len(),
{
    if ops.len() > 0 {
        let prev = byte_encode_all(x, ops.drop_last());
        lemma_all_valid_drop_last(ops, 23);
        lemma_byte_encode_all_range(x, ops.drop_last());
        let last = ops.last();
        lemma_byte_apply_raw(prev.1, last);
        let us = byte_put_raw(prev.1, last.0, last.1, last.2).0;
        assert(us.reverse().subrange(0, us.len() as int) =~= us.reverse());
        lemma_byte_step_roundtrip(prev.1, last.0, last.1, last.2, us.reverse(), 0);
    }
}

/// Roundtrip law for raw rANS operation sequences (RansByte), general form:
/// the output of applying `ops` from state `x`, placed at `pos` of any
/// data, decodes (last operation first) back to state `x` consuming exactly
/// that output.
pub proof fn lemma_byte_decode_encoded(x: nat, ops: Seq<RawOp>, data: Seq<u8>, pos: nat)
    requires
        byte_lower() <= x < byte_upper(),
        all_valid(ops, 23),
        pos + byte_encode_all(x, ops).0.len() <= data.len(),
        data.subrange(pos as int, pos as int + byte_encode_all(x, ops).0.len()) == byte_encode_all(
            x,
            ops,
        ).0,
    ensures
        byte_decode_all(byte_encode_all(x, ops).1, ops, data, pos) == Some(
            (x, pos + byte_encode_all(x, ops).0.len()),
        ),
    decreases ops.len(),
{
    if ops.len() > 0 {
        let init = ops.drop_last();
        let prev = byte_encode_all(x, init);
        lemma_all_valid_drop_last(ops, 23);
        lemma_byte_encode_all_range(x, init);
        let last = ops.last();
        lemma_byte_apply_raw(prev.1, last);
        let step = byte_put_raw(prev.1, last.0, last.1, last.2);
        let k: nat = step.0.len();
        let all = byte_encode_all(x, ops).0;
        assert(all == step.0.reverse() + prev.0);
        assert(data.subrange(pos as int, pos as int + k) =~= step.0.reverse()) by {
            assert(data.subrange(pos as int, pos as int + k) =~= data.subrange(
                pos as int,
                pos as int + all.len(),
            ).subrange(0, k as int));
        }
        lemma_byte_step_roundtrip(prev.1, last.0, last.1, last.2, data, pos);
        assert(data.subrange(pos as int + k, pos as int + k + prev.0.len()) =~= prev.0) by {
            assert(data.subrange(pos as int + k, pos as int + k + prev.0.len()) =~= data.subrange(
                pos as int,
                pos as int + all.len(),
            ).subrange(k as int, all.len() as int));
        }
        lemma_byte_decode_encoded(x, init, data, pos + k);
    }
}

/// Roundtrip law for a whole raw message (RansByte): applying `ops` from a
/// fresh encoder (state 2^23) and flushing gives a message that `init`
/// reads, that decodes every operation last-first with each slot in its
/// symbol's range, and that ends at the lower bound (EOF) with every unit
/// consumed.
pub proof fn lemma_byte_message_roundtrip(ops: Seq<RawOp>)
    requires
        all_valid(ops, 23),
    ensures
        ({
            let (out, xn) = byte_encode_all(byte_lower(), ops);
            let msg = le_bytes4(xn) + out;
            &&& byte_init(msg, 0) == Some((xn, 4nat))
            &&& byte_decode_all(xn, ops, msg, 4) == Some((byte_lower(), msg.len()))
        }),
{
    let (out, xn) = byte_encode_all(byte_lower(), ops);
    let msg = le_bytes4(xn) + out;
    lemma_byte_encode_all_range(byte_lower(), ops);
    assert(msg.subrange(0, 4) =~= le_bytes4(xn));
    lemma_byte_flush_init(xn, msg, 0);
    assert(msg.subrange(4, 4 + out.len() as int) =~= out);
    lemma_byte_decode_encoded(byte_lower(), ops, msg, 4);
}

/// Prepared-symbol law (RansByte): putting the prepared form of a valid
/// symbol is the same as the raw put, for every state of at least 1,
/// provided `freq >= 2` or `scale_bits <= 23`.
pub proof fn lemma_byte_prepared_matches_raw(x: nat, start: nat, freq: nat, scale_bits: nat)
    requires
        1 <= x < byte_upper(),
        valid_symbol(start, freq, scale_bits, 30),
        freq >= 2 || scale_bits <= 23,
    ensures
        byte_put_prepared(x, prepare_byte(start, freq, scale_bits)) == byte_put_raw(
            x,
            start,
            freq,
            scale_bits,
        ),
{
    let sym = prepare_byte(start, freq, scale_bits);
    let x_max: nat = byte_x_max(freq, scale_bits);
    lemma_pow2_facts(scale_bits);
    lemma_mul_upper_bound(
        freq as int,
        pow2(scale_bits) as int,
        pow2((31 - scale_bits) as nat) as int,
        pow2((31 - scale_bits) as nat) as int,
    );
    lemma_mul_strictly_positive(freq as int, pow2((31 - scale_bits) as nat) as int);
    assert(sym.x_max_hi as nat == x_max);
    let y: nat = byte_renorm(x, x_max).1;
    lemma_byte_renorm_below(x, x_max);
    if freq < 2 {
        if x >= x_max {
            lemma_pow2_adds((23 - scale_bits) as nat, 8);
            lemma_pow2_pos((23 - scale_bits) as nat);
            lemma2_to64();
            lemma_byte_renorm_lower(x, freq, scale_bits);
        }
    }
    lemma_prepared_matches_raw_step(y, start, freq, scale_bits);
}

} // verus!
