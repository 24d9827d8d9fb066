//! The deterministic corpus of the raw encoder differential court: eight
//! hand-picked cases, a seeded sweep over variants, modes and scale widths,
//! and boundary cases of Rans64 at its top scale.
use crate::corpus::{draw, gen_symbols, gen_symbols_from, Lcg};
use crate::raw_byte::{all_valid, check_symbol_spec, valid_symbol};
use crate::raw_cases::{
    first_symbol_error, max_scale_of, raw_encodable, raw_encode_spec, symbol_ops, RawCase,
};
use vstd::arithmetic::power2::*;
use vstd::bits::*;
use vstd::prelude::*;

verus! {

/// A case has the given seed, variant, mode, scale bits and symbols.
pub open spec fn case_is(c: RawCase, seed: u64, variant: u32, mode: u32, sb: u32, symbols: Seq<(u32, u32)>) -> bool {
    &&& c.seed == seed
    &&& c.variant == variant
    &&& c.mode == mode
    &&& c.scale_bits == sb
    &&& c.symbols@ == symbols
}

/// A well-formed corpus case: a known variant and mode, and symbols that
/// are valid for the variant (RansByte within scale 23, where its
/// roundtrip law holds).
pub open spec fn raw_case_valid(c: RawCase) -> bool {
    &&& (c.mode == 0 || c.mode == 1)
    &&& 2 <= c.scale_bits
    &&& (c.variant == 1 && all_valid(symbol_ops(c.symbols@, c.scale_bits, false), 23)) || (
    c.variant == 0 && all_valid(symbol_ops(c.symbols@, c.scale_bits, false), 31))
}

/// The hand-picked cases: `(seed, variant, mode, scale_bits, symbols)`.
pub open spec fn fixed_raw_case(j: int) -> (u64, u32, u32, u32, Seq<(u32, u32)>) {
    if j == 0 {
        (0, 1, 0, 8, seq![(0u32, 128u32)])
    } else if j == 1 {
        (1, 1, 1, 8, seq![(0u32, 128u32)])
    } else if j == 2 {
        (2, 1, 0, 8, seq![(0u32, 128u32), (64u32, 64u32), (128u32, 32u32)])
    } else if j == 3 {
        (3, 1, 1, 8, seq![(0u32, 128u32), (64u32, 64u32), (128u32, 32u32)])
    } else if j == 4 {
        (4, 1, 1, 8, seq![(0u32, 1u32)])
    } else if j == 5 {
        (5, 0, 0, 16, seq![(0u32, 32768u32), (16384u32, 16384u32)])
    } else if j == 6 {
        (6, 0, 1, 16, seq![(0u32, 32768u32), (16384u32, 16384u32)])
    } else {
        (7, 0, 1, 16, seq![(0u32, 1u32)])
    }
}

/// Variant of sweep case `k` (RansByte first, then Rans64).
pub open spec fn sweep_variant(k: int) -> u32 {
    if k < 42 {
        1
    } else {
        0
    }
}

/// Mode of sweep case `k`.
pub open spec fn sweep_mode(k: int) -> u32 {
    if (k / 21) % 2 == 0 {
        0
    } else {
        1
    }
}

/// The `b`-th swept scale width of a variant.
pub open spec fn sweep_bits_of(variant: u32, b: int) -> u32 {
    if variant == 1 {
        if b == 0 {
            8
        } else if b == 1 {
            10
        } else if b == 2 {
            12
        } else if b == 3 {
            16
        } else if b == 4 {
            20
        } else if b == 5 {
            22
        } else {
            23
        }
    } else {
        if b == 0 {
            8
        } else if b == 1 {
            12
        } else if b == 2 {
            16
        } else if b == 3 {
            20
        } else if b == 4 {
            24
        } else if b == 5 {
            28
        } else {
            31
        }
    }
}

/// Scale bits of sweep case `k`.
pub open spec fn sweep_scale_bits(k: int) -> u32 {
    sweep_bits_of(sweep_variant(k), (k / 3) % 7)
}

/// The first `n` elements of `s` (all of them when shorter).
pub open spec fn first_n(s: Seq<(u32, u32)>, n: int) -> Seq<(u32, u32)> {
    if s.len() <= n {
        s
    } else {
        s.take(n)
    }
}

/// The symbols of a sweep case of round `run` at `scale`, given the
/// symbols drawn for it: boundary symbols, boundary symbols and the first
/// four drawn, or the drawn symbols.
pub open spec fn sweep_symbols(run: int, scale: u32, drawn: Seq<(u32, u32)>) -> Seq<(u32, u32)> {
    if run == 0 {
        seq![(0u32, 1u32), (0u32, (scale - 1) as u32), ((scale - 1) as u32, 1u32), (scale / 2, scale / 2)]
    } else if run == 1 {
        seq![(0u32, (scale - 1) as u32), (scale / 3, scale / 3)] + first_n(drawn, 4)
    } else {
        drawn
    }
}

/// Sweep case `k` drawn from generator state `x`: its symbols and the
/// next state (a count below 24 plus one, then that many symbols).
pub open spec fn sweep_case(k: int, x: u64) -> (Seq<(u32, u32)>, u64) {
    let scale = pow2(sweep_scale_bits(k) as nat) as u32;
    let (c, x1) = draw(x, 24);
    let (drawn, x2) = gen_symbols_from(x1, scale, (1 + c) as nat);
    (sweep_symbols(k % 3, scale, drawn), x2)
}

/// The generator state before sweep case `k`.
pub open spec fn sweep_state(k: nat) -> u64
    decreases k,
{
    if k == 0 {
        0xE71C0DE
    } else {
        sweep_case(k - 1, sweep_state((k - 1) as nat)).1
    }
}

/// Symbols of the `i`-th top-scale boundary case drawn from state `x`.
pub open spec fn top_symbols(i: int, x: u64) -> Seq<(u32, u32)> {
    let s: u32 = 0x8000_0000;
    if i == 0 {
        seq![(0u32, 1u32), ((s - 1) as u32, 1u32), (s / 2, s / 2)]
    } else if i == 1 {
        seq![(0u32, (s - 1) as u32), (1u32, (s - 2) as u32), (2u32, (s - 3) as u32)]
    } else if i == 2 {
        seq![((s - 2) as u32, 2u32), (s / 3, s / 3)]
    } else {
        gen_symbols_from(x, s, 8).0
    }
}

/// The generator state before top-scale case `m`.
pub open spec fn top_state(m: nat) -> u64
    decreases m,
{
    if m == 0 {
        sweep_state(84)
    } else if (m - 1) % 4 == 3 {
        gen_symbols_from(top_state((m - 1) as nat), 0x8000_0000, 8).1
    } else {
        top_state((m - 1) as nat)
    }
}

/// The corpus: the hand-picked cases, the sweep (seeds from 1000), then
/// the top-scale cases (seeds from 2084).
pub open spec fn raw_corpus_is(cases: Seq<RawCase>) -> bool {
    &&& cases.len() == 100
    &&& forall|j: int|
        #![trigger cases[j]]
        0 <= j < 8 ==> {
            let f = fixed_raw_case(j);
            case_is(cases[j], f.0, f.1, f.2, f.3, f.4)
        }
    &&& forall|k: int|
        #![trigger cases[8 + k]]
        0 <= k < 84 ==> case_is(
            cases[8 + k],
            (1000 + k) as u64,
            sweep_variant(k),
            sweep_mode(k),
            sweep_scale_bits(k),
            sweep_case(k, sweep_state(k as nat)).0,
        )
    &&& forall|m: int|
        #![trigger cases[92 + m]]
        0 <= m < 8 ==> case_is(
            cases[92 + m],
            (2084 + m) as u64,
            0,
            if m < 4 {
                0
            } else {
                1
            },
            31,
            top_symbols(m % 4, top_state(m as nat)),
        )
}

/// Symbols that each start below `pow2(sb)` with a frequency of at least
/// one that fits the rest of the scale are valid for every `m >= sb`.
pub(crate) proof fn lemma_pairs_valid(s: Seq<(u32, u32)>, sb: u32, m: nat)
    requires
        0 < sb <= m,
        forall|i: int|
            0 <= i < s.len() ==> #[trigger] s[i].0 < pow2(sb as nat) && 0 < s[i].1 && s[i].1
                <= pow2(sb as nat) - s[i].0,
    ensures
        all_valid(symbol_ops(s, sb, false), m),
{
    assert forall|i: int| 0 <= i < symbol_ops(s, sb, false).len() implies valid_symbol(
        #[trigger] symbol_ops(s, sb, false)[i].0,
        symbol_ops(s, sb, false)[i].1,
        symbol_ops(s, sb, false)[i].2,
        m,
    ) by {
        assert(s[i].0 < pow2(sb as nat));
    }
}

/// Scale bits of the sweep.
fn sweep_bits(variant: u32, b: usize) -> (sb: u32)
    requires
        b < 7,
    ensures
        sb == sweep_bits_of(variant, b as int),
{
    if variant == 1 {
        match b {
            0 => 8,
            1 => 10,
            2 => 12,
            3 => 16,
            4 => 20,
            5 => 22,
            _ => 23,
        }
    } else {
        match b {
            0 => 8,
            1 => 12,
            2 => 16,
            3 => 20,
            4 => 24,
            5 => 28,
            _ => 31,
        }
    }
}

/// `1 << sb` for the swept widths.
fn scale_of(sb: u32) -> (scale: u32)
    requires
        8 <= sb <= 31,
    ensures
        scale == pow2(sb as nat),
        scale >= 256,
{
    proof {
        lemma_pow2_strictly_increases(sb as nat, 32);
        if sb > 8 {
            lemma_pow2_strictly_increases(8, sb as nat);
        }
        lemma2_to64();
        lemma_u32_shl_is_mul(1, sb);
    }
    1u32 << sb
}

/// The symbols of a sweep case (see `sweep_symbols`).
fn make_sweep_symbols(run: usize, scale: u32, drawn: Vec<(u32, u32)>) -> (s: Vec<(u32, u32)>)
    requires
        run < 3,
        scale >= 256,
    ensures
        s@ == sweep_symbols(run as int, scale, drawn@),
{
    if run == 0 {
        vec![(0, 1), (0, scale - 1), (scale - 1, 1), (scale / 2, scale / 2)]
    } else if run == 1 {
        let m: u32 = if scale > 2 {
            scale
        } else {
            2
        };
        let mut s: Vec<(u32, u32)> = vec![(0, m - 1), (scale / 3, scale / 3)];
        let ghost head = s@;
        let mut t: usize = 0;
        while t < 4 && t < drawn.len()
            invariant
                t <= 4,
                t <= drawn@.len(),
                head == seq![(0u32, (scale - 1) as u32), (scale / 3, scale / 3)],
                s@ == head + drawn@.take(t as int),
            decreases 4 - t,
        {
            s.push(drawn[t]);
            proof {
                assert(drawn@.take(t as int + 1) =~= drawn@.take(t as int).push(drawn@[t as int]));
            }
            t += 1;
        }
        proof {
            if drawn@.len() <= 4 {
                assert(drawn@.take(t as int) =~= drawn@);
            }
        }
        s
    } else {
        drawn
    }
}

/// Sweep symbols are valid at their scale.
proof fn lemma_sweep_symbols_valid(run: int, sb: u32, drawn: Seq<(u32, u32)>, m: nat)
    requires
        0 <= run < 3,
        8 <= sb <= m,
        sb <= 31,
        forall|i: int|
            0 <= i < drawn.len() ==> {
                let (start, freq) = #[trigger] drawn[i];
                &&& start < pow2(sb as nat)
                &&& 1 <= freq
                &&& freq <= pow2(sb as nat) - start
            },
    ensures
        all_valid(symbol_ops(sweep_symbols(run, pow2(sb as nat) as u32, drawn), sb, false), m),
{
    let scale: nat = pow2(sb as nat);
    lemma_pow2_strictly_increases(sb as nat, 32);
    if sb > 8 {
        lemma_pow2_strictly_increases(8, sb as nat);
    }
    lemma2_to64();
    let s = sweep_symbols(run, scale as u32, drawn);
    assert forall|i: int| 0 <= i < s.len() implies #[trigger] s[i].0 < pow2(sb as nat) && 0 < s[i].1
        && s[i].1 <= pow2(sb as nat) - s[i].0 by {
        if run == 1 && i >= 2 {
            assert(s[i] == drawn[i - 2]);
        }
        if run == 2 {
            assert(s[i] == drawn[i]);
        }
    }
    lemma_pairs_valid(s, sb, m);
}

/// Generate the deterministic raw encoder corpus (see `raw_corpus_is`);
/// every case is valid (see `raw_case_valid`).
pub fn generate_raw_cases() -> (cases: Vec<RawCase>)
    ensures
        raw_corpus_is(cases@),
        forall|i: int| 0 <= i < cases@.len() ==> raw_case_valid(#[trigger] cases@[i]),
{
    let mut cases: Vec<RawCase> = Vec::new();
    cases.push(RawCase { seed: 0, variant: 1, mode: 0, scale_bits: 8, symbols: vec![(0, 128)] });
    cases.push(RawCase { seed: 1, variant: 1, mode: 1, scale_bits: 8, symbols: vec![(0, 128)] });
    cases.push(
        RawCase {
            seed: 2,
            variant: 1,
            mode: 0,
            scale_bits: 8,
            symbols: vec![(0, 128), (64, 64), (128, 32)],
        },
    );
    cases.push(
        RawCase {
            seed: 3,
            variant: 1,
            mode: 1,
            scale_bits: 8,
            symbols: vec![(0, 128), (64, 64), (128, 32)],
        },
    );
    cases.push(RawCase { seed: 4, variant: 1, mode: 1, scale_bits: 8, symbols: vec![(0, 1)] });
    cases.push(
        RawCase { seed: 5, variant: 0, mode: 0, scale_bits: 16, symbols: vec![(0, 32768), (16384, 16384)] },
    );
    cases.push(
        RawCase { seed: 6, variant: 0, mode: 1, scale_bits: 16, symbols: vec![(0, 32768), (16384, 16384)] },
    );
    cases.push(RawCase { seed: 7, variant: 0, mode: 1, scale_bits: 16, symbols: vec![(0, 1)] });
    proof {
        lemma2_to64();
        lemma_pairs_valid(cases@[0].symbols@, 8, 23);
        lemma_pairs_valid(cases@[1].symbols@, 8, 23);
        lemma_pairs_valid(cases@[2].symbols@, 8, 23);
        lemma_pairs_valid(cases@[3].symbols@, 8, 23);
        lemma_pairs_valid(cases@[4].symbols@, 8, 23);
        lemma_pairs_valid(cases@[5].symbols@, 16, 31);
        lemma_pairs_valid(cases@[6].symbols@, 16, 31);
        lemma_pairs_valid(cases@[7].symbols@, 16, 31);
        assert(raw_case_valid(cases@[0]) && raw_case_valid(cases@[1]) && raw_case_valid(cases@[2])
            && raw_case_valid(cases@[3]) && raw_case_valid(cases@[4]) && raw_case_valid(cases@[5])
            && raw_case_valid(cases@[6]) && raw_case_valid(cases@[7]));
        assert forall|j: int| 0 <= j < 8 implies raw_case_valid(#[trigger] cases@[j]) && {
            let f = fixed_raw_case(j);
            case_is(cases@[j], f.0, f.1, f.2, f.3, f.4)
        } by {
            let f = fixed_raw_case(j);
            assert(cases@[j].symbols@ =~= f.4);
        }
    }
    let mut rng: Lcg = Lcg::new(0xE7_1C0DE);
    let mut k: usize = 0;
    while k < 84
        invariant
            k <= 84,
            cases@.len() == 8 + k,
            rng.state() == sweep_state(k as nat),
            forall|i: int| 0 <= i < cases@.len() ==> raw_case_valid(#[trigger] cases@[i]),
            forall|j: int|
                #![trigger cases@[j]]
                0 <= j < 8 ==> {
                    let f = fixed_raw_case(j);
                    case_is(cases@[j], f.0, f.1, f.2, f.3, f.4)
                },
            forall|q: int|
                #![trigger cases@[8 + q]]
                0 <= q < k ==> case_is(
                    cases@[8 + q],
                    (1000 + q) as u64,
                    sweep_variant(q),
                    sweep_mode(q),
                    sweep_scale_bits(q),
                    sweep_case(q, sweep_state(q as nat)).0,
                ),
        decreases 84 - k,
    {
        let variant: u32 = if k < 42 {
            1
        } else {
            0
        };
        let mode: u32 = if (k / 21) % 2 == 0 {
            0
        } else {
            1
        };
        let sb: u32 = sweep_bits(variant, (k / 3) % 7);
        let scale: u32 = scale_of(sb);
        let ghost x = rng.state();
        let count: usize = 1 + rng.below(24) as usize;
        let drawn: Vec<(u32, u32)> = gen_symbols(&mut rng, scale, count);
        let ghost d = drawn@;
        let run: usize = k % 3;
        let symbols: Vec<(u32, u32)> = make_sweep_symbols(run, scale, drawn);
        proof {
            let (c, x1) = draw(x, 24);
            assert(count == 1 + c);
            assert(sweep_case(k as int, x) == (symbols@, rng.state()));
            assert(sweep_state(k as nat + 1) == rng.state());
            lemma_pow2_strictly_increases(sb as nat, 32);
            lemma2_to64();
            assert forall|i: int| 0 <= i < d.len() implies {
                let (start, freq) = #[trigger] d[i];
                &&& start < pow2(sb as nat)
                &&& 1 <= freq
                &&& freq <= pow2(sb as nat) - start
            } by {
                let (start, freq) = d[i];
                assert(start < scale && 1 <= freq && freq <= scale - start);
            }
            lemma_sweep_symbols_valid(run as int, sb, d, if variant == 1 {
                23
            } else {
                31
            });
        }
        cases.push(RawCase { seed: 1000 + k as u64, variant, mode, scale_bits: sb, symbols });
        k += 1;
    }
    let mut m: usize = 0;
    while m < 8
        invariant
            m <= 8,
            cases@.len() == 92 + m,
            rng.state() == top_state(m as nat),
            forall|i: int| 0 <= i < cases@.len() ==> raw_case_valid(#[trigger] cases@[i]),
            forall|j: int|
                #![trigger cases@[j]]
                0 <= j < 8 ==> {
                    let f = fixed_raw_case(j);
                    case_is(cases@[j], f.0, f.1, f.2, f.3, f.4)
                },
            forall|q: int|
                #![trigger cases@[8 + q]]
                0 <= q < 84 ==> case_is(
                    cases@[8 + q],
                    (1000 + q) as u64,
                    sweep_variant(q),
                    sweep_mode(q),
                    sweep_scale_bits(q),
                    sweep_case(q, sweep_state(q as nat)).0,
                ),
            forall|q: int|
                #![trigger cases@[92 + q]]
                0 <= q < m ==> case_is(
                    cases@[92 + q],
                    (2084 + q) as u64,
                    0,
                    if q < 4 {
                        0
                    } else {
                        1
                    },
                    31,
                    top_symbols(q % 4, top_state(q as nat)),
                ),
        decreases 8 - m,
    {
        let mode: u32 = if m < 4 {
            0
        } else {
            1
        };
        let i: usize = m % 4;
        let scale: u32 = 0x8000_0000;
        let ghost x = rng.state();
        let symbols: Vec<(u32, u32)> = if i == 0 {
            vec![(0, 1), (scale - 1, 1), (scale / 2, scale / 2)]
        } else if i == 1 {
            vec![(0, scale - 1), (1, scale - 2), (2, scale - 3)]
        } else if i == 2 {
            vec![(scale - 2, 2), (scale / 3, scale / 3)]
        } else {
            gen_symbols(&mut rng, scale, 8)
        };
        proof {
            lemma2_to64();
            assert(symbols@ == top_symbols(i as int, x));
            assert(rng.state() == top_state(m as nat + 1));
            let s = symbols@;
            assert forall|t: int| 0 <= t < s.len() implies #[trigger] s[t].0 < pow2(31) && 0 < s[t].1
                && s[t].1 <= pow2(31) - s[t].0 by {
            }
            lemma_pairs_valid(s, 31, 31);
        }
        cases.push(RawCase { seed: 2084 + m as u64, variant: 0, mode, scale_bits: 31, symbols });
        m += 1;
    }
    cases
}

/// Every valid corpus case encodes: the raw path's preconditions hold and
/// the native encoder returns a message (no prepared symbol is rejected).
pub proof fn lemma_valid_raw_case_encodes(c: RawCase)
    requires
        raw_case_valid(c),
    ensures
        raw_encodable(c),
        raw_encode_spec(c) is Ok,
{
    let ops = symbol_ops(c.symbols@, c.scale_bits, false);
    let m = max_scale_of(c.variant);
    let v: nat = if c.variant == 1 {
        23
    } else {
        31
    };
    assert forall|i: int| 0 <= i < ops.len() implies valid_symbol(
        #[trigger] ops[i].0,
        ops[i].1,
        ops[i].2,
        m,
    ) by {
        assert(valid_symbol(ops[i].0, ops[i].1, ops[i].2, v));
    }
    lemma_no_symbol_error(c.symbols@, c.scale_bits, m);
}

/// Valid symbols at a scale of at least 2 are never rejected.
pub(crate) proof fn lemma_no_symbol_error(s: Seq<(u32, u32)>, sb: u32, m: nat)
    requires
        all_valid(symbol_ops(s, sb, false), m),
        2 <= sb,
    ensures
        first_symbol_error(s, sb, m) is None,
    decreases s.len(),
{
    if s.len() > 0 {
        let ops = symbol_ops(s, sb, false);
        assert(valid_symbol(ops[0].0, ops[0].1, ops[0].2, m));
        assert(symbol_ops(s.drop_last(), sb, false) =~= ops.drop_last());
        assert forall|i: int| 0 <= i < ops.drop_last().len() implies valid_symbol(
            #[trigger] ops.drop_last()[i].0,
            ops.drop_last()[i].1,
            ops.drop_last()[i].2,
            m,
        ) by {
            assert(ops.drop_last()[i] == ops[i]);
        }
        lemma_no_symbol_error(s.drop_last(), sb, m);
        let l = ops.len() - 1;
        assert(valid_symbol(ops[l].0, ops[l].1, ops[l].2, m));
        assert(check_symbol_spec(s.last().0 as nat, s.last().1 as nat, sb as nat, m) is Ok);
    }
}

} // verus!
