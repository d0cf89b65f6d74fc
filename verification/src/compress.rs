use vstd::prelude::*;

verus! {

/// The compression parameters of a digest and how they adapt to the
/// number of samples seen.
#[derive(Clone, Debug)]
pub struct AdaptiveParameters {
    pub delta_partial: u64,
    pub delta_final: u64,
    pub buffer_size: usize,
    pub base_delta_partial: u64,
    pub base_delta_final: u64,
    pub base_buffer_size: usize,
    pub scaled_delta_partial: u64,
    pub scaled_delta_final: u64,
    pub scaled_buffer_size: usize,
    pub initial_scale_threshold: u64,
    pub adaptation_threshold: u64,
    pub samples_seen: u64,
    pub adapted: bool,
}

/// What `adapt` did.
#[derive(Clone, Copy, Debug, PartialEq, Eq, Structural)]
pub enum AdaptStep {
    /// Too few samples, or nothing to change yet.
    Unchanged,
    /// The parameters were scaled up from their base values.
    InitialScaling,
    /// Enough samples for fine tuning from the distribution's shape, which
    /// the caller performs.
    FineTune,
}

/// A base parameter scaled by `samples / threshold`, at most doubled and
/// capped at `cap`; with no threshold the factor is two.
pub open spec fn spec_scaled(base: int, samples: int, threshold: int, cap: int) -> int {
    let doubled = base * 2;
    let scaled = if threshold == 0 || samples >= 2 * threshold { doubled } else { (base * samples) / threshold };
    if scaled <= cap { scaled } else { cap }
}

/// `spec_scaled` on machine integers.
fn scale(base: u64, samples: u64, threshold: u64, cap: u64) -> (r: u64)
    ensures
        r == spec_scaled(base as int, samples as int, threshold as int, cap as int),
{
    let doubled = (base as u128) * 2;
    let scaled: u128 = if threshold == 0 || (samples as u128) >= 2 * (threshold as u128) {
        doubled
    } else {
        proof {
            assert((base as int) * (samples as int) <= (u64::MAX as int) * (u64::MAX as int)) by (nonlinear_arith);
            assert(((base as int) * (samples as int)) / (threshold as int) <= (base as int) * (samples as int)) by (nonlinear_arith)
                requires threshold >= 1, (base as int) * (samples as int) >= 0;
        }
        ((base as u128) * (samples as u128)) / (threshold as u128)
    };
    if scaled <= cap as u128 {
        scaled as u64
    } else {
        cap
    }
}

impl AdaptiveParameters {
    /// Conservative base parameters (20, 10, 200) that scale up to
    /// (1000, 200, 2000), starting after 2,000 samples and fine-tuned from
    /// 10,000.
    pub fn new() -> (r: Self)
        ensures
            r.delta_partial == 20,
            r.delta_final == 10,
            r.buffer_size == 200,
            r.base_delta_partial == 20,
            r.base_delta_final == 10,
            r.base_buffer_size == 200,
            r.scaled_delta_partial == 1000,
            r.scaled_delta_final == 200,
            r.scaled_buffer_size == 2000,
            r.initial_scale_threshold == 2000,
            r.adaptation_threshold == 10000,
            r.samples_seen == 0,
            !r.adapted,
    {
        AdaptiveParameters {
            delta_partial: 20,
            delta_final: 10,
            buffer_size: 200,
            base_delta_partial: 20,
            base_delta_final: 10,
            base_buffer_size: 200,
            scaled_delta_partial: 1000,
            scaled_delta_final: 200,
            scaled_buffer_size: 2000,
            initial_scale_threshold: 2000,
            adaptation_threshold: 10000,
            samples_seen: 0,
            adapted: false,
        }
    }

    /// Scales the parameters up from their base values by the ratio of the
    /// samples seen to the initial threshold, at most twofold and never
    /// past the scaled values. The ratio is taken exactly, in integers.
    pub fn apply_initial_scaling(&mut self)
        ensures
            final(self).delta_partial == spec_scaled(
                old(self).base_delta_partial as int,
                old(self).samples_seen as int,
                old(self).initial_scale_threshold as int,
                old(self).scaled_delta_partial as int,
            ),
            final(self).delta_final == spec_scaled(
                old(self).base_delta_final as int,
                old(self).samples_seen as int,
                old(self).initial_scale_threshold as int,
                old(self).scaled_delta_final as int,
            ),
            final(self).buffer_size == spec_scaled(
                old(self).base_buffer_size as int,
                old(self).samples_seen as int,
                old(self).initial_scale_threshold as int,
                old(self).scaled_buffer_size as int,
            ),
            final(self).base_delta_partial == old(self).base_delta_partial,
            final(self).base_delta_final == old(self).base_delta_final,
            final(self).base_buffer_size == old(self).base_buffer_size,
            final(self).scaled_delta_partial == old(self).scaled_delta_partial,
            final(self).scaled_delta_final == old(self).scaled_delta_final,
            final(self).scaled_buffer_size == old(self).scaled_buffer_size,
            final(self).initial_scale_threshold == old(self).initial_scale_threshold,
            final(self).adaptation_threshold == old(self).adaptation_threshold,
            final(self).samples_seen == old(self).samples_seen,
            final(self).adapted == old(self).adapted,
    {
        self.delta_partial = scale(
            self.base_delta_partial,
            self.samples_seen,
            self.initial_scale_threshold,
            self.scaled_delta_partial,
        );
        self.delta_final = scale(
            self.base_delta_final,
            self.samples_seen,
            self.initial_scale_threshold,
            self.scaled_delta_final,
        );
        self.buffer_size = scale(
            self.base_buffer_size as u64,
            self.samples_seen,
            self.initial_scale_threshold,
            self.scaled_buffer_size as u64,
        ) as usize;
    }

    /// Records the number of samples seen and adapts: nothing below the
    /// initial threshold; the initial scaling while the parameters are at
    /// their base; otherwise, from the adaptation threshold on, a request
    /// for fine tuning.
    pub fn adapt(&mut self, sample_count: u64) -> (r: AdaptStep)
        ensures
            final(self).samples_seen == sample_count,
            sample_count < old(self).initial_scale_threshold ==> r == AdaptStep::Unchanged,
            sample_count >= old(self).initial_scale_threshold && old(self).delta_partial
                == old(self).base_delta_partial ==> r == AdaptStep::InitialScaling,
            sample_count >= old(self).initial_scale_threshold && old(self).delta_partial
                != old(self).base_delta_partial ==> r == (if sample_count >= old(self).adaptation_threshold {
                AdaptStep::FineTune
            } else {
                AdaptStep::Unchanged
            }),
            r == AdaptStep::InitialScaling ==> {
                &&& final(self).delta_partial == spec_scaled(
                    old(self).base_delta_partial as int,
                    sample_count as int,
                    old(self).initial_scale_threshold as int,
                    old(self).scaled_delta_partial as int,
                )
                &&& final(self).delta_final == spec_scaled(
                    old(self).base_delta_final as int,
                    sample_count as int,
                    old(self).initial_scale_threshold as int,
                    old(self).scaled_delta_final as int,
                )
                &&& final(self).buffer_size == spec_scaled(
                    old(self).base_buffer_size as int,
                    sample_count as int,
                    old(self).initial_scale_threshold as int,
                    old(self).scaled_buffer_size as int,
                )
            },
            r != AdaptStep::InitialScaling ==> {
                &&& final(self).delta_partial == old(self).delta_partial
                &&& final(self).delta_final == old(self).delta_final
                &&& final(self).buffer_size == old(self).buffer_size
            },
            final(self).base_delta_partial == old(self).base_delta_partial,
            final(self).base_delta_final == old(self).base_delta_final,
            final(self).base_buffer_size == old(self).base_buffer_size,
            final(self).scaled_delta_partial == old(self).scaled_delta_partial,
            final(self).scaled_delta_final == old(self).scaled_delta_final,
            final(self).scaled_buffer_size == old(self).scaled_buffer_size,
            final(self).initial_scale_threshold == old(self).initial_scale_threshold,
            final(self).adaptation_threshold == old(self).adaptation_threshold,
            final(self).adapted == old(self).adapted,
    {
        self.samples_seen = sample_count;
        if self.samples_seen < self.initial_scale_threshold {
            return AdaptStep::Unchanged;
        }
        if self.delta_partial == self.base_delta_partial {
            self.apply_initial_scaling();
            return AdaptStep::InitialScaling;
        }
        if self.samples_seen >= self.adaptation_threshold {
            AdaptStep::FineTune
        } else {
            AdaptStep::Unchanged
        }
    }

    /// Sets fine-tuned parameters, never below their base values.
    pub fn set_fine_tuned_parameters(&mut self, delta_partial: u64, delta_final: u64, buffer_size: usize)
        ensures
            final(self).delta_partial == (if delta_partial >= old(self).base_delta_partial {
                delta_partial
            } else {
                old(self).base_delta_partial
            }),
            final(self).delta_final == (if delta_final >= old(self).base_delta_final {
                delta_final
            } else {
                old(self).base_delta_final
            }),
            final(self).buffer_size == (if buffer_size >= old(self).base_buffer_size {
                buffer_size
            } else {
                old(self).base_buffer_size
            }),
            final(self).base_delta_partial == old(self).base_delta_partial,
            final(self).base_delta_final == old(self).base_delta_final,
            final(self).base_buffer_size == old(self).base_buffer_size,
            final(self).scaled_delta_partial == old(self).scaled_delta_partial,
            final(self).scaled_delta_final == old(self).scaled_delta_final,
            final(self).scaled_buffer_size == old(self).scaled_buffer_size,
            final(self).initial_scale_threshold == old(self).initial_scale_threshold,
            final(self).adaptation_threshold == old(self).adaptation_threshold,
            final(self).samples_seen == old(self).samples_seen,
            final(self).adapted == old(self).adapted,
    {
        self.delta_partial = if delta_partial >= self.base_delta_partial { delta_partial } else { self.base_delta_partial };
        self.delta_final = if delta_final >= self.base_delta_final { delta_final } else { self.base_delta_final };
        self.buffer_size = if buffer_size >= self.base_buffer_size { buffer_size } else { self.base_buffer_size };
    }

    /// Whether a buffer holding `buffer_count` values must be merged.
    pub fn should_merge(&self, buffer_count: usize) -> (r: bool)
        ensures
            r == (buffer_count >= self.buffer_size),
    {
        buffer_count >= self.buffer_size
    }

    /// Returns the parameters to their base values and forgets the samples.
    pub fn reset(&mut self)
        ensures
            final(self).delta_partial == old(self).base_delta_partial,
            final(self).delta_final == old(self).base_delta_final,
            final(self).buffer_size == old(self).base_buffer_size,
            final(self).samples_seen == 0,
            !final(self).adapted,
            final(self).base_delta_partial == old(self).base_delta_partial,
            final(self).base_delta_final == old(self).base_delta_final,
            final(self).base_buffer_size == old(self).base_buffer_size,
            final(self).scaled_delta_partial == old(self).scaled_delta_partial,
            final(self).scaled_delta_final == old(self).scaled_delta_final,
            final(self).scaled_buffer_size == old(self).scaled_buffer_size,
            final(self).initial_scale_threshold == old(self).initial_scale_threshold,
            final(self).adaptation_threshold == old(self).adaptation_threshold,
    {
        self.delta_partial = self.base_delta_partial;
        self.delta_final = self.base_delta_final;
        self.buffer_size = self.base_buffer_size;
        self.samples_seen = 0;
        self.adapted = false;
    }
}

/// The initial scaling never lowers a parameter below its base when the
/// scaled value is at least the base and the samples reach the threshold,
/// and never raises it past twice the base or past the scaled value.
pub proof fn lemma_initial_scaling_bounds(base: int, samples: int, threshold: int, cap: int)
    requires
        0 <= base <= cap,
        0 < threshold <= samples,
    ensures
        base <= spec_scaled(base, samples, threshold, cap) <= cap,
        spec_scaled(base, samples, threshold, cap) <= 2 * base,
{
    if samples < 2 * threshold {
        assert(base * samples >= base * threshold) by (nonlinear_arith)
            requires samples >= threshold, base >= 0;
        assert((base * samples) / threshold >= base) by (nonlinear_arith)
            requires base * samples >= base * threshold, threshold > 0;
        assert(base * samples <= base * (2 * threshold)) by (nonlinear_arith)
            requires samples <= 2 * threshold, base >= 0;
        assert((base * samples) / threshold <= 2 * base) by (nonlinear_arith)
            requires base * samples <= base * (2 * threshold), threshold > 0;
    }
}

} // verus!
