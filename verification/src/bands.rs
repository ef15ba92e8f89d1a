//! Logarithmically spaced frequency bands.
//!
//! The aggregation stage maps the transform's linear bin grid onto
//! `bands_count` geometrically spaced bands between `min_freq` and
//! `max_freq`. Band edges follow `freq(k) = min_freq * ratio^(k / bands)`,
//! carried out in Q32 fixed point: the per-band growth factor is the greatest
//! Q32 value whose `bands_count`-fold product stays within the Q32 ratio
//! `max_freq / min_freq`. Each edge frequency is then mapped to the bin
//! `floor(freq * SAMPLES_SIZE / sample_rate)` and corrected so that every
//! band is non-empty and starts no earlier than bin 1 (the DC bin is always
//! excluded).

use vstd::prelude::*;
use vstd::arithmetic::div_mod::{
    lemma_div_by_multiple, lemma_div_is_ordered, lemma_div_is_ordered_by_denominator,
    lemma_div_multiples_vanish, lemma_div_pos_is_pos, lemma_multiply_divide_le,
};
use vstd::arithmetic::mul::{lemma_mul_inequality, lemma_mul_is_commutative};
use crate::{HALF_SPECTRUM, SAMPLES_SIZE};

verus! {

/// One, in the Q32 fixed-point scale the band edges are computed in.
pub const FP_ONE: u64 = 0x1_0000_0000;

/// Static band layout: how many bands, over which frequency range. The
/// ceiling is a deliberate fixed perceptual choice; it does not track the
/// Nyquist frequency when the sample rate changes, though every usable rate
/// must keep Nyquist at or above it.
#[derive(Clone, Copy)]
pub struct BandConfig {
    pub bands_count: usize,
    pub min_freq: usize,
    pub max_freq: usize,
}

impl BandConfig {
    /// A usable layout: at least one band over a non-empty positive range,
    /// with the ceiling small enough for the fixed-point arithmetic.
    pub open spec fn wf(&self) -> bool {
        &&& 1 <= self.bands_count
        &&& self.bands_count <= 0xFFFF
        &&& 1 <= self.min_freq
        &&& self.min_freq < self.max_freq
        &&& self.max_freq <= 0x100_0000
    }

    /// A sample rate this layout can be mapped onto: the ceiling must not
    /// pass the Nyquist frequency.
    pub open spec fn valid_rate(&self, sr: int) -> bool {
        &&& 2 * self.max_freq <= sr
        &&& sr <= 0xFFFF_FFFF
    }

    /// The converged default layout: 70 bands over 70..1200 Hz.
    pub fn default_layout() -> (c: BandConfig)
        ensures
            c.wf(),
            c.bands_count == 70,
            c.min_freq == 70,
            c.max_freq == 1200,
    {
        BandConfig { bands_count: 70, min_freq: 70, max_freq: 1200 }
    }

    /// Fail-fast guard for unverified callers: whether a sample rate is in
    /// contract for this layout.
    pub fn rate_ok(&self, sample_rate: usize) -> (ok: bool)
        requires
            self.wf(),
        ensures
            ok == self.valid_rate(sample_rate as int),
    {
        2 * self.max_freq <= sample_rate && sample_rate <= 0xFFFF_FFFF
    }
}

/// `k`-fold product of a Q32 factor with itself, each step rounded down.
pub open spec fn powq(g: int, k: nat) -> int
    decreases k,
{
    if k == 0 {
        FP_ONE as int
    } else {
        (powq(g, (k - 1) as nat) * g) / (FP_ONE as int)
    }
}

/// The Q32 ratio of the frequency range's endpoints.
pub open spec fn freq_ratio_q(min_freq: int, max_freq: int) -> int {
    (max_freq * (FP_ONE as int)) / min_freq
}

/// A candidate growth factor: at least one, with its `b`-fold power within
/// the range ratio.
pub open spec fn root_ok(g: int, b: nat, rq: int) -> bool {
    g >= FP_ONE && powq(g, b) <= rq
}

/// The growth factor the table is built from: the greatest such candidate.
pub open spec fn is_growth_factor(g: int, b: nat, rq: int) -> bool {
    root_ok(g, b, rq) && powq(g + 1, b) > rq
}

pub open spec fn growth_factor(b: nat, rq: int) -> int {
    choose|g: int| is_growth_factor(g, b, rq)
}

proof fn lemma_powq_nonneg(g: int, k: nat)
    requires
        g >= 0,
    ensures
        powq(g, k) >= 0,
    decreases k,
{
    if k > 0 {
        lemma_powq_nonneg(g, (k - 1) as nat);
        let p = powq(g, (k - 1) as nat);
        assert(p * g >= 0) by (nonlinear_arith)
            requires p >= 0, g >= 0,
        ;
        lemma_div_pos_is_pos(p * g, FP_ONE as int);
    }
}

/// A factor at or above one keeps every power at or above one.
proof fn lemma_powq_lb(g: int, k: nat)
    requires
        g >= FP_ONE,
    ensures
        powq(g, k) >= FP_ONE,
    decreases k,
{
    if k > 0 {
        lemma_powq_lb(g, (k - 1) as nat);
        let p = powq(g, (k - 1) as nat);
        assert(p * (FP_ONE as int) <= p * g) by (nonlinear_arith)
            requires p >= 0, FP_ONE as int <= g,
        ;
        lemma_div_is_ordered(p * (FP_ONE as int), p * g, FP_ONE as int);
        lemma_div_by_multiple(p, FP_ONE as int);
    }
}

/// Powers of a factor at or above one do not shrink as the exponent grows.
proof fn lemma_powq_mono_k(g: int, k1: nat, k2: nat)
    requires
        g >= FP_ONE,
        k1 <= k2,
    ensures
        powq(g, k1) <= powq(g, k2),
    decreases k2,
{
    if k1 < k2 {
        lemma_powq_mono_k(g, k1, (k2 - 1) as nat);
        let p = powq(g, (k2 - 1) as nat);
        lemma_powq_lb(g, (k2 - 1) as nat);
        assert(p * (FP_ONE as int) <= p * g) by (nonlinear_arith)
            requires p >= 0, FP_ONE as int <= g,
        ;
        lemma_div_is_ordered(p * (FP_ONE as int), p * g, FP_ONE as int);
        lemma_div_by_multiple(p, FP_ONE as int);
    }
}

/// The power is monotone in the factor.
proof fn lemma_powq_mono_g(g1: int, g2: int, k: nat)
    requires
        0 <= g1 <= g2,
    ensures
        powq(g1, k) <= powq(g2, k),
    decreases k,
{
    if k > 0 {
        lemma_powq_mono_g(g1, g2, (k - 1) as nat);
        let p1 = powq(g1, (k - 1) as nat);
        let p2 = powq(g2, (k - 1) as nat);
        lemma_powq_nonneg(g1, (k - 1) as nat);
        assert(p1 * g1 <= p2 * g2) by (nonlinear_arith)
            requires 0 <= p1, p1 <= p2, 0 <= g1, g1 <= g2,
        ;
        lemma_div_is_ordered(p1 * g1, p2 * g2, FP_ONE as int);
    }
}

proof fn lemma_powq_one(k: nat)
    ensures
        powq(FP_ONE as int, k) == FP_ONE as int,
    decreases k,
{
    if k > 0 {
        lemma_powq_one((k - 1) as nat);
        lemma_div_by_multiple(FP_ONE as int, FP_ONE as int);
    }
}

/// With at least one factor applied, the power is at least the factor.
proof fn lemma_powq_ge_g(g: int, k: nat)
    requires
        g >= FP_ONE,
        k >= 1,
    ensures
        powq(g, k) >= g,
{
    lemma_mul_is_commutative(FP_ONE as int, g);
    lemma_div_by_multiple(g, FP_ONE as int);
    assert(powq(g, 0) == FP_ONE as int);
    assert(powq(g, 1) == (powq(g, 0) * g) / (FP_ONE as int));
    assert(powq(g, 1) == g);
    lemma_powq_mono_k(g, 1, k);
}

/// Climbs from a known candidate to the greatest one.
proof fn lemma_climb_to_growth_factor(b: nat, rq: int, cur: int) -> (g: int)
    requires
        b >= 1,
        root_ok(cur, b, rq),
    ensures
        is_growth_factor(g, b, rq),
    decreases rq - cur,
{
    lemma_powq_ge_g(cur, b);
    if powq(cur + 1, b) <= rq {
        lemma_powq_ge_g(cur + 1, b);
        lemma_climb_to_growth_factor(b, rq, cur + 1)
    } else {
        cur
    }
}

/// The greatest candidate exists whenever the range ratio is at least one.
proof fn lemma_growth_factor_exists(b: nat, rq: int) -> (g: int)
    requires
        b >= 1,
        rq >= FP_ONE,
    ensures
        is_growth_factor(g, b, rq),
{
    lemma_powq_one(b);
    lemma_climb_to_growth_factor(b, rq, FP_ONE as int)
}

/// The greatest candidate is unique, so `growth_factor` names exactly it.
proof fn lemma_growth_factor_unique(b: nat, rq: int, g: int)
    requires
        is_growth_factor(g, b, rq),
    ensures
        growth_factor(b, rq) == g,
{
    let gc = growth_factor(b, rq);
    assert(is_growth_factor(gc, b, rq));
    if gc < g {
        lemma_powq_mono_g(gc + 1, g, b);
        assert(false);
    }
    if gc > g {
        lemma_powq_mono_g(g + 1, gc, b);
        assert(false);
    }
}

/// Whether the `b`-fold Q32 power of `g` stays within `limit`.
fn powq_within(g: u64, b: usize, limit: u64) -> (r: bool)
    requires
        g >= FP_ONE,
        b >= 1,
        limit >= FP_ONE,
    ensures
        r <==> powq(g as int, b as nat) <= limit,
{
    let mut p: u128 = FP_ONE as u128;
    let mut j: usize = 0;
    while j < b
        invariant
            0 <= j <= b,
            g >= FP_ONE,
            b >= 1,
            p == powq(g as int, j as nat),
            p <= limit,
        decreases b - j,
    {
        proof {
            assert(p * (g as u128) <= (u64::MAX as u128) * (u64::MAX as u128)) by (nonlinear_arith)
                requires p <= u64::MAX as u128, g as u128 <= u64::MAX as u128,
            ;
        }
        let prod: u128 = p * (g as u128);
        let next: u128 = prod / (FP_ONE as u128);
        if next > limit as u128 {
            proof {
                lemma_powq_mono_k(g as int, (j + 1) as nat, b as nat);
            }
            return false;
        }
        p = next;
        j += 1;
    }
    true
}

/// Binary search for the greatest Q32 growth factor whose `b`-fold power
/// stays within `rq`.
fn find_growth_factor(b: usize, rq: u64) -> (g: u64)
    requires
        b >= 1,
        rq >= FP_ONE,
        rq < u64::MAX,
    ensures
        is_growth_factor(g as int, b as nat, rq as int),
        g as int == growth_factor(b as nat, rq as int),
{
    let mut lo: u64 = FP_ONE;
    let mut hi: u64 = rq + 1;
    proof {
        lemma_powq_one(b as nat);
        lemma_powq_ge_g(rq as int + 1, b as nat);
    }
    while hi - lo > 1
        invariant
            b >= 1,
            FP_ONE <= lo < hi <= rq + 1,
            powq(lo as int, b as nat) <= rq,
            powq(hi as int, b as nat) > rq,
        decreases hi - lo,
    {
        let mid: u64 = lo + (hi - lo) / 2;
        if powq_within(mid, b, rq) {
            lo = mid;
        } else {
            hi = mid;
        }
    }
    proof {
        assert(hi == lo + 1);
        lemma_growth_factor_unique(b as nat, rq as int, lo as int);
    }
    lo
}

/// The transform bin a Q32-scaled edge frequency falls in:
/// `floor(min_freq * ratio^(k/b) * SAMPLES_SIZE / sample_rate)`.
pub open spec fn edge_bin(min_freq: int, sr: int, g: int, k: nat) -> int {
    (min_freq * powq(g, k) * (SAMPLES_SIZE as int)) / (sr * (FP_ONE as int))
}

/// Band `k`: the window between consecutive edges, corrected so the band is
/// non-empty and never touches the DC bin.
pub open spec fn band_at(min_freq: int, sr: int, g: int, k: nat) -> (int, int) {
    let e0 = edge_bin(min_freq, sr, g, k);
    let e1 = edge_bin(min_freq, sr, g, (k + 1) as nat);
    let s = if e0 < 1 { 1 } else { e0 };
    let e = if e1 < s + 1 { s + 1 } else { e1 };
    (s, e)
}

/// The whole band table of a layout at a sample rate.
pub open spec fn spec_band_table(cfg: BandConfig, sr: int) -> Seq<(int, int)> {
    let rq = freq_ratio_q(cfg.min_freq as int, cfg.max_freq as int);
    let g = growth_factor(cfg.bands_count as nat, rq);
    Seq::new(cfg.bands_count as nat, |k: int| band_at(cfg.min_freq as int, sr, g, k as nat))
}

/// Computes the `(start_bin, end_bin)` table: `bands_count` geometrically
/// spaced bands between `min_freq` and `max_freq`, mapped onto the transform
/// bin grid for the given sample rate.
pub fn get_spectrum_bands(cfg: &BandConfig, sample_rate: usize) -> (r: Vec<(usize, usize)>)
    requires
        cfg.wf(),
        cfg.valid_rate(sample_rate as int),
    ensures
        r@.len() == cfg.bands_count,
        forall|k: int|
            0 <= k < r@.len() ==> {
                let bk = spec_band_table(*cfg, sample_rate as int)[k];
                (#[trigger] r@[k]).0 == bk.0 && r@[k].1 == bk.1
            },
{
    let m = cfg.min_freq;
    let mx = cfg.max_freq;
    let b = cfg.bands_count;
    let sr = sample_rate;
    proof {
        assert((mx as u128) * (FP_ONE as u128) <= 0x100_0000u128 * 0x1_0000_0000u128)
            by (nonlinear_arith)
            requires mx as u128 <= 0x100_0000u128,
        ;
    }
    let rq128: u128 = ((mx as u128) * (FP_ONE as u128)) / (m as u128);
    proof {
        lemma_div_is_ordered_by_denominator((mx as int) * (FP_ONE as int), 1, m as int);
        lemma_div_multiples_vanish((mx as int) * (FP_ONE as int), 1);
        lemma_mul_inequality(m as int, mx as int, FP_ONE as int);
        lemma_div_multiples_vanish(FP_ONE as int, m as int);
        lemma_div_is_ordered((m as int) * (FP_ONE as int), (mx as int) * (FP_ONE as int), m as int);
        assert(rq128 >= FP_ONE);
        assert((mx as int) * (FP_ONE as int) <= 0x100_0000_0000_0000) by (nonlinear_arith)
            requires mx as int <= 0x100_0000, FP_ONE as int == 0x1_0000_0000,
        ;
        assert(rq128 <= (mx as int) * (FP_ONE as int));
        assert(rq128 <= u64::MAX);
    }
    let rq: u64 = rq128 as u64;
    let g: u64 = find_growth_factor(b, rq);
    let ghost gi: int = g as int;
    let ghost rqi: int = rq as int;

    // The b + 1 edge bins, in ascending order of edge frequency.
    let mut bins: Vec<usize> = Vec::new();
    let mut p: u128 = FP_ONE as u128;
    let mut k: usize = 0;
    while k <= b
        invariant
            0 <= k <= b + 1,
            b < usize::MAX,
            m == cfg.min_freq,
            mx == cfg.max_freq,
            sr == sample_rate,
            cfg.wf(),
            cfg.valid_rate(sr as int),
            gi == g as int,
            rqi == rq as int,
            rqi >= FP_ONE,
            rqi == ((mx as int) * (FP_ONE as int)) / (m as int),
            rqi <= (mx as int) * (FP_ONE as int),
            rqi <= 0x100_0000_0000_0000,
            is_growth_factor(gi, b as nat, rqi),
            bins@.len() == k,
            k <= b ==> p == powq(gi, k as nat),
            k <= b ==> p <= rqi,
            forall|i: int|
                0 <= i < k ==> (#[trigger] bins@[i]) as int == edge_bin(
                    m as int,
                    sr as int,
                    gi,
                    i as nat,
                ) && bins@[i] <= HALF_SPECTRUM,
        decreases b + 1 - k,
    {
        proof {
            // The numerator stays far inside u128 range.
            assert((m as u128) * p * (SAMPLES_SIZE as u128) <= 0x100_0000u128
                * 0x100_0000_0000_0000u128 * 4096u128) by (nonlinear_arith)
                requires
                    m as u128 <= 0x100_0000u128,
                    p <= 0x100_0000_0000_0000u128,
                    SAMPLES_SIZE as u128 == 4096u128,
            ;
            assert((sr as u128) * (FP_ONE as u128) <= 0xFFFF_FFFFu128 * 0x1_0000_0000u128)
                by (nonlinear_arith)
                requires sr as u128 <= 0xFFFF_FFFFu128,
            ;
        }
        let num: u128 = (m as u128) * p * (SAMPLES_SIZE as u128);
        let den: u128 = (sr as u128) * (FP_ONE as u128);
        let bin128: u128 = num / den;
        proof {
            // num <= den * HALF_SPECTRUM, so the bin lies in the meaningful
            // half of the spectrum.
            assert((m as int) * (p as int) <= (mx as int) * (FP_ONE as int)) by (nonlinear_arith)
                requires
                    1 <= m as int,
                    0 <= p as int,
                    p as int <= rqi,
                    rqi == ((mx as int) * (FP_ONE as int)) / (m as int),
                    0 <= (mx as int) * (FP_ONE as int),
            ;
            assert((m as int) * (p as int) * (SAMPLES_SIZE as int) <= ((sr as int) * (
            FP_ONE as int)) * (HALF_SPECTRUM as int)) by (nonlinear_arith)
                requires
                    (m as int) * (p as int) <= (mx as int) * (FP_ONE as int),
                    2 * (mx as int) <= sr as int,
                    0 <= mx,
                    SAMPLES_SIZE as int == 4096,
                    HALF_SPECTRUM as int == 2048,
                    FP_ONE as int == 0x1_0000_0000,
            ;
            lemma_multiply_divide_le(num as int, den as int, HALF_SPECTRUM as int);
            assert(bin128 <= HALF_SPECTRUM);
        }
        let bin: usize = bin128 as usize;
        bins.push(bin);
        if k < b {
            proof {
                assert(p * (g as u128) <= (u64::MAX as u128) * (u64::MAX as u128))
                    by (nonlinear_arith)
                    requires p <= u64::MAX as u128, g as u128 <= u64::MAX as u128,
                ;
            }
            p = (p * (g as u128)) / (FP_ONE as u128);
            proof {
                lemma_powq_mono_k(gi, (k + 1) as nat, b as nat);
            }
        }
        k += 1;
    }

    // Consecutive edge pairs, corrected to non-empty bands past the DC bin.
    let mut out: Vec<(usize, usize)> = Vec::new();
    let mut k2: usize = 0;
    while k2 < b
        invariant
            0 <= k2 <= b,
            b < usize::MAX,
            m == cfg.min_freq,
            sr == sample_rate,
            gi == g as int,
            bins@.len() == b + 1,
            forall|i: int|
                0 <= i < bins@.len() ==> (#[trigger] bins@[i]) as int == edge_bin(
                    m as int,
                    sr as int,
                    gi,
                    i as nat,
                ) && bins@[i] <= HALF_SPECTRUM,
            out@.len() == k2,
            forall|i: int|
                0 <= i < k2 ==> {
                    let bi = band_at(m as int, sr as int, gi, i as nat);
                    (#[trigger] out@[i]).0 == bi.0 && out@[i].1 == bi.1
                },
        decreases b - k2,
    {
        let e0 = bins[k2];
        let e1 = bins[k2 + 1];
        let s = if e0 < 1 { 1 } else { e0 };
        let e = if e1 < s + 1 { s + 1 } else { e1 };
        out.push((s, e));
        k2 += 1;
    }
    proof {
        lemma_growth_factor_unique(b as nat, rqi, gi);
        assert(rqi == freq_ratio_q(m as int, mx as int));
    }
    out
}

/// Band monotonic coverage law: for any usable layout at an in-contract
/// sample rate (strictly below-Nyquist ceiling), every band of the table
/// satisfies `1 <= start < end <= HALF_SPECTRUM`, and both edges are
/// non-decreasing from band to band, i.e. the table is in ascending
/// frequency order.
pub proof fn lemma_band_monotonic_coverage(cfg: BandConfig, sr: int)
    requires
        cfg.wf(),
        2 * cfg.max_freq < sr,
        sr <= 0xFFFF_FFFF,
    ensures
        spec_band_table(cfg, sr).len() == cfg.bands_count,
        forall|k: int|
            0 <= k < spec_band_table(cfg, sr).len() ==> {
                let bk = #[trigger] spec_band_table(cfg, sr)[k];
                1 <= bk.0 < bk.1 <= HALF_SPECTRUM
            },
        forall|k: int|
            0 <= k < spec_band_table(cfg, sr).len() - 1 ==> {
                let bk = #[trigger] spec_band_table(cfg, sr)[k];
                let bn = spec_band_table(cfg, sr)[k + 1];
                bk.0 <= bn.0 && bk.1 <= bn.1
            },
{
    let m = cfg.min_freq as int;
    let mx = cfg.max_freq as int;
    let b = cfg.bands_count as nat;
    let one = FP_ONE as int;
    let rq = freq_ratio_q(m, mx);
    // rq is at least one and at most mx * one.
    lemma_mul_inequality(m, mx, one);
    lemma_div_multiples_vanish(one, m);
    lemma_div_is_ordered(m * one, mx * one, m);
    lemma_div_is_ordered_by_denominator(mx * one, 1, m);
    lemma_div_multiples_vanish(mx * one, 1);
    assert(rq >= one);
    assert(rq <= mx * one);
    let gw = lemma_growth_factor_exists(b, rq);
    lemma_growth_factor_unique(b, rq, gw);
    let g = growth_factor(b, rq);
    assert(is_growth_factor(g, b, rq));

    assert forall|k: nat| k <= b implies 0 <= #[trigger] edge_bin(m, sr, g, k) && edge_bin(
        m,
        sr,
        g,
        k,
    ) < HALF_SPECTRUM by {
        lemma_powq_mono_k(g, k, b);
        lemma_powq_nonneg(g, k);
        let p = powq(g, k);
        assert(m * p * (SAMPLES_SIZE as int) >= 0) by (nonlinear_arith)
            requires m >= 1, p >= 0, SAMPLES_SIZE as int == 4096,
        ;
        assert(sr * one > 0) by (nonlinear_arith)
            requires sr >= 1, one == 0x1_0000_0000,
        ;
        lemma_div_pos_is_pos(m * p * (SAMPLES_SIZE as int), sr * one);
        assert(m * p <= mx * one) by (nonlinear_arith)
            requires
                1 <= m,
                0 <= p,
                p <= rq,
                rq == (mx * one) / m,
                0 <= mx * one,
        ;
        assert(m * p * (SAMPLES_SIZE as int) < (sr * one) * (HALF_SPECTRUM as int))
            by (nonlinear_arith)
            requires
                m * p <= mx * one,
                2 * mx < sr,
                0 <= mx,
                1 <= m,
                0 <= p,
                SAMPLES_SIZE as int == 4096,
                HALF_SPECTRUM as int == 2048,
                one == 0x1_0000_0000,
        ;
        vstd::arithmetic::div_mod::lemma_multiply_divide_lt(
            m * p * (SAMPLES_SIZE as int),
            sr * one,
            HALF_SPECTRUM as int,
        );
    }

    assert forall|k: nat| k < b implies #[trigger] edge_bin(m, sr, g, k) <= edge_bin(
        m,
        sr,
        g,
        (k + 1) as nat,
    ) by {
        lemma_powq_mono_k(g, k, (k + 1) as nat);
        lemma_powq_nonneg(g, k);
        let p0 = powq(g, k);
        let p1 = powq(g, (k + 1) as nat);
        assert(m * p0 * (SAMPLES_SIZE as int) <= m * p1 * (SAMPLES_SIZE as int))
            by (nonlinear_arith)
            requires 0 <= p0, p0 <= p1, m >= 1, SAMPLES_SIZE as int == 4096,
        ;
        assert(sr * one > 0) by (nonlinear_arith)
            requires sr >= 1, one == 0x1_0000_0000,
        ;
        lemma_div_is_ordered(
            m * p0 * (SAMPLES_SIZE as int),
            m * p1 * (SAMPLES_SIZE as int),
            sr * one,
        );
    }

    assert forall|k: int| 0 <= k < spec_band_table(cfg, sr).len() implies {
        let bk = #[trigger] spec_band_table(cfg, sr)[k];
        1 <= bk.0 < bk.1 <= HALF_SPECTRUM
    } by {
        let e0 = edge_bin(m, sr, g, k as nat);
        let e1 = edge_bin(m, sr, g, (k + 1) as nat);
        assert(0 <= e0 && e0 < HALF_SPECTRUM);
        assert(0 <= e1 && e1 < HALF_SPECTRUM);
    }

    assert forall|k: int| 0 <= k < spec_band_table(cfg, sr).len() - 1 implies {
        let bk = #[trigger] spec_band_table(cfg, sr)[k];
        let bn = spec_band_table(cfg, sr)[k + 1];
        bk.0 <= bn.0 && bk.1 <= bn.1
    } by {
        assert(edge_bin(m, sr, g, k as nat) <= edge_bin(m, sr, g, (k + 1) as nat));
        assert(edge_bin(m, sr, g, (k + 1) as nat) <= edge_bin(m, sr, g, (k + 2) as nat));
    }
}

} // verus!
