//! Deterministic corpus generation shared by the courts: a seeded
//! xorshift64* generator and generators of raw symbols and value batches.
use vstd::prelude::*;

verus! {

/// The xorshift step of the generator's state.
pub open spec fn xorshift(x: u64) -> u64 {
    let x1 = x ^ (x >> 12u64);
    let x2 = x1 ^ (x1 << 25u64);
    x2 ^ (x2 >> 27u64)
}

/// The value drawn when the state advances from `x`.
pub open spec fn lcg_output(x: u64) -> u64 {
    xorshift(x).wrapping_mul(0x2545F4914F6CDD1D)
}

/// A draw below `bound` from state `x`: the value and the next state (no
/// draw, and 0, for a zero bound).
pub open spec fn draw(x: u64, bound: u64) -> (u64, u64) {
    if bound == 0 {
        (0, x)
    } else {
        (lcg_output(x) % bound, xorshift(x))
    }
}

/// Deterministic xorshift64* generator.
pub struct Lcg(u64);

impl Lcg {
    /// The generator's state.
    pub closed spec fn state(&self) -> u64 {
        self.0
    }

    /// A generator seeded with `seed` (a zero seed becomes 1).
    pub fn new(seed: u64) -> (r: Self)
        ensures
            r.state() == if seed >= 1 {
                seed
            } else {
                1
            },
    {
        Lcg(if seed >= 1 {
            seed
        } else {
            1
        })
    }

    /// Advance the state and return the next output.
    pub fn next(&mut self) -> (r: u64)
        ensures
            final(self).state() == xorshift(old(self).state()),
            r == lcg_output(old(self).state()),
    {
        let mut x: u64 = self.0;
        x ^= x >> 12u64;
        x ^= x << 25u64;
        x ^= x >> 27u64;
        self.0 = x;
        x.wrapping_mul(0x2545F4914F6CDD1D)
    }

    /// A value in `[0, bound)` (0, without advancing, for `bound == 0`).
    pub fn below(&mut self, bound: u64) -> (r: u64)
        ensures
            (r, final(self).state()) == draw(old(self).state(), bound),
    {
        if bound == 0 {
            0
        } else {
            self.next() % bound
        }
    }
}

/// The larger of `v` and 1.
pub open spec fn at_least_one(v: u32) -> u32 {
    if v >= 1 {
        v
    } else {
        1
    }
}

/// The largest frequency drawn for a symbol starting at `start`: the rest
/// of the scale, one less for the full-scale symbol, and at least 1.
pub open spec fn max_freq_for(scale: u32, start: u32) -> u32 {
    let m = (scale - start) as u32;
    at_least_one(
        if m == scale {
            (m - 1) as u32
        } else {
            m
        },
    )
}

/// One generated symbol from state `x`: the symbol and the next state.
pub open spec fn gen_symbol(x: u64, scale: u32) -> ((u32, u32), u64) {
    let (s, x1) = draw(x, scale as u64);
    let start = s as u32;
    let mf = max_freq_for(scale, start);
    let (k, x2) = draw(x1, 4);
    let (f, x3) = if k == 0 {
        (1u32, x2)
    } else if k == 1 {
        (mf, x2)
    } else if k == 2 {
        (at_least_one(mf / 2), x2)
    } else {
        let (r, x3) = draw(x2, mf as u64);
        ((1 + r) as u32, x3)
    };
    let freq = if f < 1 {
        1u32
    } else if f > mf {
        mf
    } else {
        f
    };
    ((start, freq), x3)
}

/// `count` generated symbols from state `x`, and the final state.
pub open spec fn gen_symbols_from(x: u64, scale: u32, count: nat) -> (Seq<(u32, u32)>, u64)
    decreases count,
{
    if count == 0 {
        (Seq::empty(), x)
    } else {
        let (sym, x1) = gen_symbol(x, scale);
        let rest = gen_symbols_from(x1, scale, (count - 1) as nat);
        (seq![sym] + rest.0, rest.1)
    }
}

/// Generate `count` raw symbols at `scale`; every symbol starts below the
/// scale with a frequency of at least 1 that fits the rest of the scale,
/// and (for a scale of at least 2) is never the full-scale symbol.
pub fn gen_symbols(rng: &mut Lcg, scale: u32, count: usize) -> (out: Vec<(u32, u32)>)
    requires
        scale >= 1,
    ensures
        (out@, final(rng).state()) == gen_symbols_from(old(rng).state(), scale, count as nat),
        forall|i: int|
            0 <= i < out@.len() ==> {
                let (start, freq) = #[trigger] out@[i];
                &&& start < scale
                &&& 1 <= freq
                &&& (scale >= 2 ==> freq <= scale - start && freq < scale)
            },
{
    let mut out: Vec<(u32, u32)> = Vec::with_capacity(count);
    let ghost x0 = rng.state();
    let mut n: usize = 0;
    while n < count
        invariant
            scale >= 1,
            n <= count,
            out@.len() == n,
            gen_symbols_from(x0, scale, count as nat) == (
                out@ + gen_symbols_from(rng.state(), scale, (count - n) as nat).0,
                gen_symbols_from(rng.state(), scale, (count - n) as nat).1,
            ),
            forall|i: int|
                0 <= i < out@.len() ==> {
                    let (start, freq) = #[trigger] out@[i];
                    &&& start < scale
                    &&& 1 <= freq
                    &&& (scale >= 2 ==> freq <= scale - start && freq < scale)
                },
        decreases count - n,
    {
        let ghost x = rng.state();
        let start: u32 = rng.below(scale as u64) as u32;
        let mut max_freq: u32 = scale - start;
        if max_freq == scale {
            max_freq -= 1;
        }
        let max_freq: u32 = if max_freq >= 1 {
            max_freq
        } else {
            1
        };
        let freq: u32 = match rng.below(4) {
            0 => 1,
            1 => max_freq,
            2 => if max_freq / 2 >= 1 {
                max_freq / 2
            } else {
                1
            },
            _ => 1 + rng.below(max_freq as u64) as u32,
        };
        let clamped: u32 = if freq < 1 {
            1
        } else if freq > max_freq {
            max_freq
        } else {
            freq
        };
        proof {
            let (sym, x1) = gen_symbol(x, scale);
            assert(sym == (start, clamped));
            assert(x1 == rng.state());
            let rest = gen_symbols_from(x1, scale, (count - n - 1) as nat);
            assert(gen_symbols_from(x, scale, (count - n) as nat) == (seq![sym] + rest.0, rest.1));
            assert(out@.push(sym) + rest.0 =~= out@ + (seq![sym] + rest.0));
        }
        out.push((start, clamped));
        n += 1;
    }
    proof {
        assert(out@ + Seq::<(u32, u32)>::empty() =~= out@);
    }
    out
}

/// One generated value for draw state `x`: an outlier above or below the
/// range, an extreme positive value, or a value in `[-center, center]`.
pub open spec fn gen_value(x: u64, center: i32) -> (i32, u64) {
    let (k, x1) = draw(x, 12);
    if k == 0 {
        let (r, x2) = draw(x1, 200);
        ((center + 10 + r) as i32, x2)
    } else if k == 1 {
        let (r, x2) = draw(x1, 200);
        ((-(center + 10 + r)) as i32, x2)
    } else if k == 2 {
        let (r, x2) = draw(x1, 400);
        ((center * 4 + r) as i32, x2)
    } else {
        let (r, x2) = draw(x1, (2 * center + 1) as u64);
        ((r - center) as i32, x2)
    }
}

/// `count` generated values from state `x` (and the final state).
pub open spec fn gen_values_from(x: u64, center: i32, count: nat) -> (Seq<i32>, u64)
    decreases count,
{
    if count == 0 {
        (Seq::empty(), x)
    } else {
        let (v, x1) = gen_value(x, center);
        let rest = gen_values_from(x1, center, (count - 1) as nat);
        (seq![v] + rest.0, rest.1)
    }
}

/// Generate a batch of `count` values (in-range symbols and bypass
/// outliers) and their distribution indices, cycling over `dist_count`
/// distributions.
pub fn gen_values(rng: &mut Lcg, dist_count: usize, center: i32, count: usize) -> (r: (
    Vec<i32>,
    Vec<i32>,
))
    requires
        dist_count >= 1,
        0 <= center <= 536870812,
    ensures
        (r.0@, final(rng).state()) == gen_values_from(old(rng).state(), center, count as nat),
        r.1@.len() == count,
        forall|i: int| 0 <= i < count ==> #[trigger] r.1@[i] == (i % dist_count as int) as i32,
{
    let mut values: Vec<i32> = Vec::with_capacity(count);
    let mut indices: Vec<i32> = Vec::with_capacity(count);
    let ghost x0 = rng.state();
    let mut i: usize = 0;
    while i < count
        invariant
            dist_count >= 1,
            0 <= center <= 536870812,
            i <= count,
            values@.len() == i,
            indices@.len() == i,
            forall|j: int| 0 <= j < i ==> #[trigger] indices@[j] == (j % dist_count as int) as i32,
            gen_values_from(x0, center, count as nat) == (
                values@ + gen_values_from(rng.state(), center, (count - i) as nat).0,
                gen_values_from(rng.state(), center, (count - i) as nat).1,
            ),
        decreases count - i,
    {
        let ghost x = rng.state();
        indices.push((i % dist_count) as i32);
        let v: i32 = match rng.below(12) {
            0 => center + 10 + (rng.below(200) as i32),
            1 => -(center + 10 + (rng.below(200) as i32)),
            2 => center * 4 + (rng.below(400) as i32),
            _ => (rng.below((2 * center + 1) as u64) as i32) - center,
        };
        proof {
            let (gv, x1) = gen_value(x, center);
            assert(gv == v);
            assert(x1 == rng.state());
            let rest = gen_values_from(x1, center, (count - i - 1) as nat);
            assert(values@.push(v) + rest.0 =~= values@ + (seq![v] + rest.0));
        }
        values.push(v);
        i += 1;
    }
    proof {
        assert(values@ + Seq::<i32>::empty() =~= values@);
    }
    (values, indices)
}

} // verus!
