//! One pipeline instance: every piece of mutable analysis state in a single
//! owned struct, so independent instances never share anything.
//!
//! Samples and band values are carried as single-precision bit patterns
//! (`u32`). The numeric stages between intake and output (windowing, the
//! transform, magnitudes, band energies) run with the host glue; this module
//! owns the state machine around them: intake, cold-start gating, the band
//! table for the current sample rate, and the output buffer.

use vstd::prelude::*;
use crate::bands::{get_spectrum_bands, spec_band_table, BandConfig};
use crate::history::{append_samples, History};
use crate::{BLOCK_SIZE, SAMPLES_SIZE};

verus! {

/// Bit pattern of single-precision zero: the output's initialization value.
pub const ZERO_BITS: u32 = 0;

/// A real-time spectral-analyzer pipeline.
pub struct SpectrumAnalyzer {
    config: BandConfig,
    sample_rate: usize,
    history: History,
    output: Vec<u32>,
}

impl SpectrumAnalyzer {
    /// The instance's invariant: a usable layout, a window within capacity,
    /// and an output slot per configured band.
    pub closed spec fn wf(&self) -> bool {
        &&& self.config.wf()
        &&& self.history.wf()
        &&& self.output@.len() == self.config.bands_count
    }

    pub closed spec fn config_spec(&self) -> BandConfig {
        self.config
    }

    pub closed spec fn rate_spec(&self) -> int {
        self.sample_rate as int
    }

    /// The sliding window's samples, oldest first.
    pub closed spec fn history_spec(&self) -> Seq<u32> {
        self.history.samples()
    }

    /// The host-readable band values, as bit patterns.
    pub closed spec fn output_spec(&self) -> Seq<u32> {
        self.output@
    }

    /// A fresh pipeline: nominal 48 kHz rate, empty window, all-zero output.
    pub fn new(config: BandConfig) -> (a: SpectrumAnalyzer)
        requires
            config.wf(),
        ensures
            a.wf(),
            a.config_spec() == config,
            a.rate_spec() == 48000,
            a.history_spec() == Seq::<u32>::empty(),
            a.output_spec() == Seq::new(config.bands_count as nat, |i: int| ZERO_BITS),
    {
        let mut output: Vec<u32> = Vec::new();
        let mut i: usize = 0;
        while i < config.bands_count
            invariant
                0 <= i <= config.bands_count,
                output@ == Seq::new(i as nat, |j: int| ZERO_BITS),
            decreases config.bands_count - i,
        {
            output.push(ZERO_BITS);
            proof {
                assert(output@ =~= Seq::new((i + 1) as nat, |j: int| ZERO_BITS));
            }
            i += 1;
        }
        SpectrumAnalyzer { config, sample_rate: 48000, history: History::new(), output }
    }

    /// Sets the sample rate. The band table is recomputed from the current
    /// rate on every full analysis pass, so the new rate takes effect on the
    /// very next one; nothing else changes.
    pub fn set_sample_rate(&mut self, rate_hz: usize)
        requires
            old(self).wf(),
        ensures
            final(self).wf(),
            final(self).rate_spec() == rate_hz,
            final(self).config_spec() == old(self).config_spec(),
            final(self).history_spec() == old(self).history_spec(),
            final(self).output_spec() == old(self).output_spec(),
    {
        self.sample_rate = rate_hz;
    }

    pub fn sample_rate(&self) -> (r: usize)
        ensures
            r as int == self.rate_spec(),
    {
        self.sample_rate
    }

    pub fn config(&self) -> (c: BandConfig)
        ensures
            c == self.config_spec(),
    {
        self.config
    }

    /// How many band values the host may read after a processing call.
    pub fn freq_out_len(&self) -> (n: usize)
        requires
            self.wf(),
        ensures
            n == self.config_spec().bands_count,
    {
        self.output.len()
    }

    /// Current occupancy of the sliding window.
    pub fn history_len(&self) -> (n: usize)
        ensures
            n == self.history_spec().len(),
    {
        self.history.len()
    }

    /// Intake of one host block: appends all its samples in order, evicting
    /// the oldest past capacity. Returns whether the window is full, i.e.
    /// whether a full analysis pass is due. Until then every call leaves the
    /// output exactly as it was (cold-start gating).
    pub fn append_block(&mut self, block: &Vec<u32>) -> (ready: bool)
        requires
            old(self).wf(),
            block@.len() == BLOCK_SIZE,
        ensures
            final(self).wf(),
            final(self).history_spec() == append_samples(old(self).history_spec(), block@),
            ready <==> final(self).history_spec().len() == SAMPLES_SIZE,
            final(self).config_spec() == old(self).config_spec(),
            final(self).rate_spec() == old(self).rate_spec(),
            final(self).output_spec() == old(self).output_spec(),
    {
        self.history.append_block(block);
        self.history.len() == SAMPLES_SIZE
    }

    /// A copy of the full window, oldest first, for the windowing and
    /// transform stages.
    pub fn history_snapshot(&self) -> (v: Vec<u32>)
        ensures
            v@ == self.history_spec(),
    {
        self.history.snapshot()
    }

    /// The band table for the configured layout at the current sample rate,
    /// recomputed from the live rate so a rate change can never leave a
    /// stale table in use.
    pub fn band_table(&self) -> (r: Vec<(usize, usize)>)
        requires
            self.wf(),
            self.config_spec().valid_rate(self.rate_spec()),
        ensures
            r@.len() == self.config_spec().bands_count,
            forall|k: int|
                0 <= k < r@.len() ==> {
                    let bk = spec_band_table(self.config_spec(), self.rate_spec())[k];
                    (#[trigger] r@[k]).0 == bk.0 && r@[k].1 == bk.1
                },
    {
        get_spectrum_bands(&self.config, self.sample_rate)
    }

    /// Stores the band values of a completed analysis pass, overwriting the
    /// output buffer in place; everything else is untouched.
    pub fn write_output(&mut self, values: Vec<u32>)
        requires
            old(self).wf(),
            values@.len() == old(self).config_spec().bands_count,
        ensures
            final(self).wf(),
            final(self).output_spec() == values@,
            final(self).config_spec() == old(self).config_spec(),
            final(self).rate_spec() == old(self).rate_spec(),
            final(self).history_spec() == old(self).history_spec(),
    {
        self.output = values;
    }

    /// A copy of the host-readable output buffer.
    pub fn output_snapshot(&self) -> (v: Vec<u32>)
        ensures
            v@ == self.output_spec(),
    {
        let mut v: Vec<u32> = Vec::new();
        let mut i: usize = 0;
        while i < self.output.len()
            invariant
                0 <= i <= self.output@.len(),
                v@ == self.output@.take(i as int),
            decreases self.output@.len() - i,
        {
            v.push(self.output[i]);
            proof {
                assert(v@ =~= self.output@.take(i + 1));
            }
            i += 1;
        }
        proof {
            assert(self.output@.take(self.output@.len() as int) =~= self.output@);
        }
        v
    }
}

} // verus!
