//! What is known of each candidate: latency averages and success rate.
//!
//! The averages are exponentially weighted. The arithmetic on doubles is
//! handed in by the caller; which value is blended with which, and when a
//! sample is taken as it is, is decided here.
use crate::double::Double;
use vstd::arithmetic::power2::*;
use vstd::prelude::*;

verus! {

/// Streaming time-to-first-chunk and non-streaming response time are tracked
/// separately; blending them in one average would distort routing for both.
#[derive(Debug, Clone, Copy, PartialEq, Eq, Structural)]
pub enum LatencyMode {
    Streaming,
    NonStreaming,
}

impl LatencyMode {
    /// The mode's name in logs.
    pub fn as_str(self) -> (r: &'static str)
        ensures
            r@ == match self {
                LatencyMode::Streaming => "streaming"@,
                LatencyMode::NonStreaming => "nonstreaming"@,
            },
    {
        match self {
            LatencyMode::Streaming => "streaming",
            LatencyMode::NonStreaming => "nonstreaming",
        }
    }

    /// The mode of a request.
    pub fn of(streaming: bool) -> (r: LatencyMode)
        ensures
            r == if streaming {
                LatencyMode::Streaming
            } else {
                LatencyMode::NonStreaming
            },
    {
        if streaming {
            LatencyMode::Streaming
        } else {
            LatencyMode::NonStreaming
        }
    }
}

/// The average that stands for "no data yet".
pub const COLD: u64 = u64::MAX;

/// An outcome as a number: 1 for a success, 0 for an error.
pub open spec fn sample(success: bool) -> Double {
    Double {
        bits: if success {
            crate::double::ONE
        } else {
            0
        },
    }
}

/// Whether `after` is `before` with an outcome folded into the rate, and
/// nothing else changed.
pub open spec fn outcome_folded<F: Fn(Double, Double, Double) -> Double>(
    before: CandidateStats,
    after: CandidateStats,
    success: bool,
    alpha: Double,
    blend: &F,
) -> bool {
    &&& call_ensures(blend, (alpha, sample(success), before.rate()), after.rate())
    &&& forall|mode: LatencyMode| #[trigger] after.average(mode) == before.average(mode)
}

/// Whether `after` is `before` with a latency folded into the average of its
/// mode, the first as it is and a later one blended, and nothing else changed.
pub open spec fn latency_folded<F: Fn(Double, u64, u64) -> u64>(
    before: CandidateStats,
    after: CandidateStats,
    mode: LatencyMode,
    observed_ms: u64,
    alpha: Double,
    blend: &F,
) -> bool {
    &&& before.average(mode) == COLD ==> after.average(mode) == observed_ms
    &&& before.average(mode) != COLD ==> call_ensures(
        blend,
        (alpha, observed_ms, before.average(mode)),
        after.average(mode),
    )
    &&& forall|other: LatencyMode|
        other != mode ==> #[trigger] after.average(other) == before.average(other)
    &&& after.rate() == before.rate()
}

/// The running averages of one candidate.
#[derive(Debug)]
pub struct CandidateStats {
    /// Average streaming time-to-first-chunk in milliseconds, or `COLD`.
    streaming_ewma_ms: u64,
    /// Average non-streaming response time in milliseconds, or `COLD`.
    nonstreaming_ewma_ms: u64,
    /// Average outcome (success = 1, error = 0). Starts optimistic at 1;
    /// recovers via probe traffic, not a clock.
    success_rate: Double,
}

impl Default for CandidateStats {
    fn default() -> (r: Self)
        ensures
            forall|mode: LatencyMode| r.average(mode) == COLD,
            r.rate().bits == crate::double::ONE,
    {
        CandidateStats::new()
    }
}

impl CandidateStats {
    /// The latency average of a mode.
    pub closed spec fn average(&self, mode: LatencyMode) -> u64 {
        match mode {
            LatencyMode::Streaming => self.streaming_ewma_ms,
            LatencyMode::NonStreaming => self.nonstreaming_ewma_ms,
        }
    }

    /// The success rate.
    pub closed spec fn rate(&self) -> Double {
        self.success_rate
    }

    /// No data in either mode, and full trust.
    pub fn new() -> (r: Self)
        ensures
            forall|mode: LatencyMode| r.average(mode) == COLD,
            r.rate().bits == crate::double::ONE,
    {
        CandidateStats {
            streaming_ewma_ms: COLD,
            nonstreaming_ewma_ms: COLD,
            success_rate: Double::one(),
        }
    }

    /// The latency average of a mode in milliseconds, `u64::MAX` while cold.
    pub fn ewma_ms(&self, mode: LatencyMode) -> (r: u64)
        ensures
            r == self.average(mode),
    {
        match mode {
            LatencyMode::Streaming => self.streaming_ewma_ms,
            LatencyMode::NonStreaming => self.nonstreaming_ewma_ms,
        }
    }

    /// Whether there is no latency sample for the mode yet.
    pub fn is_cold(&self, mode: LatencyMode) -> (r: bool)
        ensures
            r == (self.average(mode) == COLD),
    {
        self.ewma_ms(mode) == COLD
    }

    /// The success rate, from 0 to 1.
    pub fn success_rate(&self) -> (r: Double)
        ensures
            r == self.rate(),
    {
        self.success_rate
    }

    /// Folds an outcome into the success rate, as a sample of 1 for a success
    /// and 0 for an error. `blend` computes
    /// `alpha * sample + (1 - alpha) * rate`.
    pub fn record_outcome<F: Fn(Double, Double, Double) -> Double>(
        &mut self,
        success: bool,
        alpha: Double,
        blend: &F,
    )
        requires
            call_requires(blend, (alpha, sample(success), old(self).rate())),
        ensures
            outcome_folded(*old(self), *final(self), success, alpha, blend),
    {
        let observed = if success {
            Double::one()
        } else {
            Double::zero()
        };
        self.success_rate = blend(alpha, observed, self.success_rate);
    }

    /// Folds a latency sample into the average of its mode: the first sample
    /// is taken as it is, later ones are blended. `blend` computes
    /// `alpha * observed + (1 - alpha) * average`, rounded.
    pub fn update_ewma<F: Fn(Double, u64, u64) -> u64>(
        &mut self,
        mode: LatencyMode,
        observed_ms: u64,
        alpha: Double,
        blend: &F,
    )
        requires
            old(self).average(mode) != COLD ==> call_requires(
                blend,
                (alpha, observed_ms, old(self).average(mode)),
            ),
        ensures
            latency_folded(*old(self), *final(self), mode, observed_ms, alpha, blend),
    {
        let average: u64 = self.ewma_ms(mode);
        let next: u64 = if average == COLD {
            observed_ms
        } else {
            blend(alpha, observed_ms, average)
        };
        match mode {
            LatencyMode::Streaming => {
                self.streaming_ewma_ms = next;
            },
            LatencyMode::NonStreaming => {
                self.nonstreaming_ewma_ms = next;
            },
        }
    }
}

/// What can be folded into a candidate's averages.
#[derive(Debug, Clone, Copy, PartialEq, Eq, Structural)]
pub enum Measurement {
    Outcome { success: bool },
    Latency { mode: LatencyMode, ms: u64 },
}

/// Whether `after` is `before` with a measurement folded in.
pub open spec fn folded<L: Fn(Double, u64, u64) -> u64, R: Fn(Double, Double, Double) -> Double>(
    before: CandidateStats,
    after: CandidateStats,
    measured: Measurement,
    alpha: Double,
    blend_latency: &L,
    blend_rate: &R,
) -> bool {
    match measured {
        Measurement::Outcome { success } => outcome_folded(
            before,
            after,
            success,
            alpha,
            blend_rate,
        ),
        Measurement::Latency { mode, ms } => latency_folded(
            before,
            after,
            mode,
            ms,
            alpha,
            blend_latency,
        ),
    }
}

/// Whether a candidate went through `states`, from no data and full trust on,
/// as the measurements were folded in one by one.
pub open spec fn history<L: Fn(Double, u64, u64) -> u64, R: Fn(Double, Double, Double) -> Double>(
    states: Seq<CandidateStats>,
    measured: Seq<Measurement>,
    alpha: Double,
    blend_latency: &L,
    blend_rate: &R,
) -> bool {
    &&& states.len() == measured.len() + 1
    &&& forall|mode: LatencyMode| #[trigger] states[0].average(mode) == COLD
    &&& states[0].rate().bits == crate::double::ONE
    &&& forall|n: int|
        0 <= n < measured.len() ==> folded(
            states[n],
            states[n + 1],
            #[trigger] measured[n],
            alpha,
            blend_latency,
            blend_rate,
        )
}

/// Whether a latency of the mode is among the first `n` measurements.
pub open spec fn sampled(measured: Seq<Measurement>, n: int, mode: LatencyMode) -> bool {
    exists|i: int|
        0 <= i < n && (#[trigger] measured[i] matches Measurement::Latency { mode: m, .. } && m
            == mode)
}

/// Whether a number lies between two others, or is one of them.
pub open spec fn between(n: u64, a: u64, b: u64) -> bool {
    a <= n <= b || b <= n <= a
}

/// Whether blending two latencies below `limit` gives one between them.
pub open spec fn averages<L: Fn(Double, u64, u64) -> u64>(
    alpha: Double,
    limit: u64,
    blend: &L,
) -> bool {
    forall|observed: u64, average: u64, r: u64|
        observed < limit && average < limit && #[trigger] call_ensures(
            blend,
            (alpha, observed, average),
            r,
        ) ==> between(r, average, observed)
}

/// Whether blending an outcome into a rate from 0 to 1 gives such a rate,
/// that is no higher after an error and no lower, but for `slack`, after a
/// success. (The slack is in units of `2^-1074`.)
pub open spec fn averages_outcomes<R: Fn(Double, Double, Double) -> Double>(
    alpha: Double,
    slack: int,
    blend: &R,
) -> bool {
    forall|success: bool, rate: Double, r: Double|
        rate.unit() && #[trigger] call_ensures(blend, (alpha, sample(success), rate), r) ==> {
            &&& r.unit()
            &&& success ==> rate.scaled() - slack <= r.scaled()
            &&& !success ==> r.scaled() <= rate.scaled()
        }
}

/// A mode is cold exactly until its first sample, and never again: outcomes
/// and samples of the other mode do not warm it, and no blend makes it look
/// unmeasured.
pub proof fn cold_until_the_first_sample<
    L: Fn(Double, u64, u64) -> u64,
    R: Fn(Double, Double, Double) -> Double,
>(
    states: Seq<CandidateStats>,
    measured: Seq<Measurement>,
    alpha: Double,
    blend_latency: &L,
    blend_rate: &R,
    limit: u64,
    mode: LatencyMode,
    n: int,
)
    requires
        history(states, measured, alpha, blend_latency, blend_rate),
        averages(alpha, limit, blend_latency),
        forall|i: int|
            0 <= i < measured.len() ==> (#[trigger] measured[i] matches Measurement::Latency {
                ms,
                ..
            } ==> ms < limit),
        0 <= n <= measured.len(),
    ensures
        states[n].average(mode) == COLD <==> !sampled(measured, n, mode),
        states[n].average(mode) == COLD || states[n].average(mode) < limit,
    decreases n,
{
    if n > 0 {
        let i = n - 1;
        cold_until_the_first_sample(
            states,
            measured,
            alpha,
            blend_latency,
            blend_rate,
            limit,
            mode,
            i,
        );
        assert(folded(
            states[i],
            states[i + 1],
            measured[i],
            alpha,
            blend_latency,
            blend_rate,
        ));
        if sampled(measured, i, mode) {
            let j = choose|j: int|
                0 <= j < i && (#[trigger] measured[j] matches Measurement::Latency { mode: m, .. }
                    && m == mode);
            assert(measured[j] is Latency);
            assert(sampled(measured, n, mode));
        }
    }
}

/// An average stays between what it was and the sample, so that a constant
/// signal is a fixed point; the other mode and the rate are left alone.
pub proof fn averages_stay_between<L: Fn(Double, u64, u64) -> u64>(
    before: CandidateStats,
    after: CandidateStats,
    mode: LatencyMode,
    observed_ms: u64,
    alpha: Double,
    blend: &L,
    limit: u64,
)
    requires
        latency_folded(before, after, mode, observed_ms, alpha, blend),
        averages(alpha, limit, blend),
        before.average(mode) < limit,
        observed_ms < limit,
    ensures
        between(after.average(mode), before.average(mode), observed_ms),
        before.average(mode) == observed_ms ==> after.average(mode) == observed_ms,
        forall|other: LatencyMode|
            other != mode ==> #[trigger] after.average(other) == before.average(other),
        after.rate() == before.rate(),
{
}

/// The success rate is from 0 to 1 after any measurements, goes no higher on
/// an error and no lower on a success, but for the slack, and a latency sample
/// leaves it alone.
pub proof fn rates_follow_the_outcomes<
    L: Fn(Double, u64, u64) -> u64,
    R: Fn(Double, Double, Double) -> Double,
>(
    states: Seq<CandidateStats>,
    measured: Seq<Measurement>,
    alpha: Double,
    blend_latency: &L,
    blend_rate: &R,
    slack: int,
    n: int,
)
    requires
        history(states, measured, alpha, blend_latency, blend_rate),
        averages_outcomes(alpha, slack, blend_rate),
        0 <= n <= measured.len(),
    ensures
        states[n].rate().unit(),
        n > 0 ==> match measured[n - 1] {
            Measurement::Outcome { success: true } => states[n - 1].rate().scaled() - slack
                <= states[n].rate().scaled(),
            Measurement::Outcome { success: false } => states[n].rate().scaled()
                <= states[n - 1].rate().scaled(),
            Measurement::Latency { .. } => states[n].rate() == states[n - 1].rate(),
        },
        n > 0 && measured[n - 1] is Outcome ==> forall|mode: LatencyMode| #[trigger]
            states[n].average(mode) == states[n - 1].average(mode),
    decreases n,
{
    if n == 0 {
        Double::outcomes_are_in_the_unit_interval();
        assert(states[0].rate() == Double { bits: crate::double::ONE });
    } else {
        let i = n - 1;
        rates_follow_the_outcomes(states, measured, alpha, blend_latency, blend_rate, slack, i);
        assert(folded(
            states[i],
            states[i + 1],
            measured[i],
            alpha,
            blend_latency,
            blend_rate,
        ));
    }
}

/// Whole milliseconds in a duration of that many nanoseconds, as a `u64`.
pub open spec fn millis(nanos: u128) -> u64 {
    ((nanos / 1_000_000) as int % 0x1_0000_0000_0000_0000) as u64
}

/// Whole milliseconds in a duration given in nanoseconds.
pub fn to_millis(nanos: u128) -> (r: u64)
    ensures
        r == millis(nanos),
{
    let ms: u128 = nanos / 1_000_000;
    assert(ms as u64 == ms % 0x1_0000_0000_0000_0000u128) by (bit_vector);
    #[verifier::truncate]
    (ms as u64)
}

/// Per-candidate stats stored in a flat `Vec`, addressed by a stable index
/// minted at `register` time. Indices are safe because `register` only
/// appends. Cross-alias sharing is preserved by `ModelMap` deduping
/// (provider, model) pairs to the same index. One `alpha` smooths both the
/// latency and success-rate averages, so the signals react on the same
/// timescale.
#[derive(Debug)]
pub struct Tracker {
    stats: Vec<CandidateStats>,
    alpha: Double,
    error_threshold: Double,
}

impl View for Tracker {
    type V = Seq<CandidateStats>;

    closed spec fn view(&self) -> Seq<CandidateStats> {
        self.stats@
    }
}

/// Whether only one slot differs between two trackers.
pub open spec fn only_slot(before: &Tracker, after: &Tracker, index: int) -> bool {
    &&& after@ == before@.update(index, after@[index])
    &&& after.alpha() == before.alpha()
    &&& after.threshold() == before.threshold()
}

/// Whether `after` is a tracker with one more success at a slot: the latency
/// went into the average of its mode (the first sample as it is, a later one
/// blended), the outcome into the success rate, and nothing else changed.
pub open spec fn after_success<L: Fn(Double, u64, u64) -> u64, R: Fn(Double, Double, Double) -> Double>(
    before: &Tracker,
    after: &Tracker,
    index: int,
    mode: LatencyMode,
    nanos: u128,
    blend_latency: &L,
    blend_rate: &R,
) -> bool {
    let old_stats = before@[index];
    let new_stats = after@[index];
    &&& only_slot(before, after, index)
    &&& old_stats.average(mode) == COLD ==> new_stats.average(mode) == millis(nanos)
    &&& old_stats.average(mode) != COLD ==> call_ensures(
        blend_latency,
        (before.alpha(), millis(nanos), old_stats.average(mode)),
        new_stats.average(mode),
    )
    &&& forall|other: LatencyMode|
        other != mode ==> new_stats.average(other) == old_stats.average(other)
    &&& call_ensures(blend_rate, (before.alpha(), sample(true), old_stats.rate()), new_stats.rate())
}

/// Whether `after` is a tracker with one more error at a slot: the outcome
/// went into the success rate, and nothing else changed.
pub open spec fn after_error<R: Fn(Double, Double, Double) -> Double>(
    before: &Tracker,
    after: &Tracker,
    index: int,
    blend_rate: &R,
) -> bool {
    let old_stats = before@[index];
    let new_stats = after@[index];
    &&& only_slot(before, after, index)
    &&& forall|mode: LatencyMode| new_stats.average(mode) == old_stats.average(mode)
    &&& call_ensures(blend_rate, (before.alpha(), sample(false), old_stats.rate()), new_stats.rate())
}

/// A success of a tracker's candidate folds a latency and then an outcome
/// into its averages, an error an outcome alone; all other candidates are left
/// alone.
pub proof fn trackers_fold_measurements<
    L: Fn(Double, u64, u64) -> u64,
    R: Fn(Double, Double, Double) -> Double,
>(
    before: &Tracker,
    after: &Tracker,
    index: int,
    mode: LatencyMode,
    nanos: u128,
    blend_latency: &L,
    blend_rate: &R,
)
    requires
        0 <= index < before@.len(),
    ensures
        after_success(before, after, index, mode, nanos, blend_latency, blend_rate)
            ==> exists|mid: CandidateStats|
            {
                &&& #[trigger] latency_folded(
                    before@[index],
                    mid,
                    mode,
                    millis(nanos),
                    before.alpha(),
                    blend_latency,
                )
                &&& outcome_folded(mid, after@[index], true, before.alpha(), blend_rate)
            },
        after_error(before, after, index, blend_rate) ==> outcome_folded(
            before@[index],
            after@[index],
            false,
            before.alpha(),
            blend_rate,
        ),
        only_slot(before, after, index) ==> forall|i: int|
            0 <= i < before@.len() && i != index ==> #[trigger] after@[i] == before@[i],
{
    let mid = CandidateStats {
        streaming_ewma_ms: after@[index].streaming_ewma_ms,
        nonstreaming_ewma_ms: after@[index].nonstreaming_ewma_ms,
        success_rate: before@[index].success_rate,
    };
    if after_success(before, after, index, mode, nanos, blend_latency, blend_rate) {
        assert forall|m: LatencyMode| #[trigger] mid.average(m) == after@[index].average(m) by {}
        assert(latency_folded(
            before@[index],
            mid,
            mode,
            millis(nanos),
            before.alpha(),
            blend_latency,
        ));
    }
}

impl Tracker {
    /// The smoothing factor.
    pub closed spec fn alpha(&self) -> Double {
        self.alpha
    }

    /// The error rate above which a candidate counts as degraded.
    pub closed spec fn threshold(&self) -> Double {
        self.error_threshold
    }

    /// No candidates yet.
    pub fn new(alpha: Double, error_threshold: Double) -> (r: Self)
        ensures
            r@.len() == 0,
            r.alpha() == alpha,
            r.threshold() == error_threshold,
    {
        Tracker { stats: Vec::new(), alpha, error_threshold }
    }

    /// The number of candidates.
    pub fn len(&self) -> (r: usize)
        ensures
            r == self@.len(),
    {
        self.stats.len()
    }

    /// Allocates a new stats slot and returns its index. The index is stable
    /// for the lifetime of the tracker.
    pub fn register(&mut self) -> (r: usize)
        ensures
            r == old(self)@.len(),
            final(self)@.len() == old(self)@.len() + 1,
            final(self)@.take(r as int) == old(self)@,
            forall|mode: LatencyMode| final(self)@[r as int].average(mode) == COLD,
            final(self)@[r as int].rate().bits == crate::double::ONE,
            final(self).alpha() == old(self).alpha(),
            final(self).threshold() == old(self).threshold(),
    {
        let index: usize = self.stats.len();
        self.stats.push(CandidateStats::new());
        assert(self@.take(index as int) =~= old(self)@);
        index
    }

    /// The stats of a candidate.
    pub fn stats(&self, index: usize) -> (r: &CandidateStats)
        requires
            index < self@.len(),
        ensures
            *r == self@[index as int],
    {
        &self.stats[index]
    }

    /// A 2xx response: folds the latency, in nanoseconds, into the average of
    /// its mode, and a success into the rate.
    pub fn record_success<L: Fn(Double, u64, u64) -> u64, R: Fn(Double, Double, Double) -> Double>(
        &mut self,
        index: usize,
        mode: LatencyMode,
        observed_nanos: u128,
        blend_latency: &L,
        blend_rate: &R,
    )
        requires
            index < old(self)@.len(),
            old(self)@[index as int].average(mode) != COLD ==> call_requires(
                blend_latency,
                (old(self).alpha(), millis(observed_nanos), old(self)@[index as int].average(mode)),
            ),
            call_requires(
                blend_rate,
                (old(self).alpha(), sample(true), old(self)@[index as int].rate()),
            ),
        ensures
            after_success(
                old(self),
                final(self),
                index as int,
                mode,
                observed_nanos,
                blend_latency,
                blend_rate,
            ),
    {
        let alpha = self.alpha;
        let ms: u64 = to_millis(observed_nanos);
        self.stats[index].update_ewma(mode, ms, alpha, blend_latency);
        self.stats[index].record_outcome(true, alpha, blend_rate);
        assert(self@ =~= old(self)@.update(index as int, self@[index as int]));
    }

    /// Any other outcome: folds an error into the rate. Latency averages are
    /// left alone, so a fast failure never makes a candidate look fast.
    pub fn record_error<R: Fn(Double, Double, Double) -> Double>(
        &mut self,
        index: usize,
        blend_rate: &R,
    )
        requires
            index < old(self)@.len(),
            call_requires(
                blend_rate,
                (old(self).alpha(), sample(false), old(self)@[index as int].rate()),
            ),
        ensures
            after_error(old(self), final(self), index as int, blend_rate),
    {
        let alpha = self.alpha;
        self.stats[index].record_outcome(false, alpha, blend_rate);
        assert(self@ =~= old(self)@.update(index as int, self@[index as int]));
    }

    /// Whether the error rate is above `error_threshold`. Not consulted by
    /// routing: it only breaks session-affinity pins and labels `/status`.
    /// `error_rate` computes `1 - success_rate`.
    pub fn is_degraded<E: Fn(Double) -> Double>(&self, index: usize, error_rate: &E) -> (r: bool)
        requires
            index < self@.len(),
            call_requires(error_rate, (self@[index as int].rate(),)),
        ensures
            exists|e: Double| #[trigger]
                call_ensures(error_rate, (self@[index as int].rate(),), e) && r
                    == self.threshold().below(e),
    {
        let e = error_rate(self.stats[index].success_rate());
        self.error_threshold.less_than(e)
    }
}

/// A success counts as one and an error as nothing.
pub proof fn outcomes_count_as_one_or_nothing()
    ensures
        sample(true).scaled() == pow2(1074) && !sample(true).nan(),
        sample(false).scaled() == 0 && !sample(false).nan(),
        sample(true).bits == 0x3FF0_0000_0000_0000 && sample(false).bits == 0,
{
    Double::outcomes_are_in_the_unit_interval();
    crate::double::exponents_double_the_value(0);
    crate::double::one_is_a_power_of_two();
}

/// A duration counts as the whole milliseconds in it, as far as a `u64` can
/// count them.
pub proof fn durations_count_in_whole_milliseconds(nanos: u128)
    requires
        nanos < 18_446_744_073_709_551_616_000_000,
    ensures
        millis(nanos) * 1_000_000 <= nanos < (millis(nanos) + 1) * 1_000_000,
{
    let ms = nanos / 1_000_000;
    assert(ms < 0x1_0000_0000_0000_0000);
}

/// A latency goes to the average of its own mode, as it is where there was
/// none and blended with what there was otherwise; the other mode and the rate
/// stay.
pub proof fn latencies_go_to_their_own_mode<F: Fn(Double, u64, u64) -> u64>(
    before: CandidateStats,
    after: CandidateStats,
    mode: LatencyMode,
    ms: u64,
    alpha: Double,
    blend: &F,
)
    requires
        latency_folded(before, after, mode, ms, alpha, blend),
    ensures
        before.average(mode) == u64::MAX ==> after.average(mode) == ms,
        before.average(mode) < u64::MAX ==> call_ensures(
            blend,
            (alpha, ms, before.average(mode)),
            after.average(mode),
        ),
        mode == LatencyMode::Streaming ==> after.average(LatencyMode::NonStreaming)
            == before.average(LatencyMode::NonStreaming),
        mode == LatencyMode::NonStreaming ==> after.average(LatencyMode::Streaming)
            == before.average(LatencyMode::Streaming),
        after.rate() == before.rate(),
{
}

/// An outcome goes to the rate, blended as one or nothing with what it was;
/// both latency averages stay.
pub proof fn outcomes_go_to_the_rate<F: Fn(Double, Double, Double) -> Double>(
    before: CandidateStats,
    after: CandidateStats,
    success: bool,
    alpha: Double,
    blend: &F,
)
    requires
        outcome_folded(before, after, success, alpha, blend),
    ensures
        success ==> call_ensures(
            blend,
            (alpha, Double { bits: 0x3FF0_0000_0000_0000 }, before.rate()),
            after.rate(),
        ),
        !success ==> call_ensures(blend, (alpha, Double { bits: 0 }, before.rate()), after.rate()),
        after.average(LatencyMode::Streaming) == before.average(LatencyMode::Streaming),
        after.average(LatencyMode::NonStreaming) == before.average(LatencyMode::NonStreaming),
{
}

/// A success is a latency for its own mode and a one for the rate, at one
/// slot; an error is a nothing for the rate of one slot, and leaves its
/// latencies alone. No other slot and no setting changes.
pub proof fn responses_teach_one_candidate<
    L: Fn(Double, u64, u64) -> u64,
    R: Fn(Double, Double, Double) -> Double,
>(
    before: &Tracker,
    after: &Tracker,
    index: int,
    mode: LatencyMode,
    nanos: u128,
    blend_latency: &L,
    blend_rate: &R,
    other: int,
)
    requires
        0 <= index < before@.len(),
        0 <= other < before@.len(),
    ensures
        after_success(before, after, index, mode, nanos, blend_latency, blend_rate) ==> {
            let a = before@[index];
            let b = after@[index];
            &&& after@.len() == before@.len()
            &&& other != index ==> after@[other] == before@[other]
            &&& after.alpha() == before.alpha() && after.threshold() == before.threshold()
            &&& a.average(mode) == u64::MAX ==> b.average(mode) == millis(nanos)
            &&& a.average(mode) < u64::MAX ==> call_ensures(
                blend_latency,
                (before.alpha(), millis(nanos), a.average(mode)),
                b.average(mode),
            )
            &&& mode == LatencyMode::Streaming ==> b.average(LatencyMode::NonStreaming)
                == a.average(LatencyMode::NonStreaming)
            &&& mode == LatencyMode::NonStreaming ==> b.average(LatencyMode::Streaming)
                == a.average(LatencyMode::Streaming)
            &&& call_ensures(
                blend_rate,
                (before.alpha(), Double { bits: 0x3FF0_0000_0000_0000 }, a.rate()),
                b.rate(),
            )
        },
        after_error(before, after, index, blend_rate) ==> {
            let a = before@[index];
            let b = after@[index];
            &&& after@.len() == before@.len()
            &&& other != index ==> after@[other] == before@[other]
            &&& after.alpha() == before.alpha() && after.threshold() == before.threshold()
            &&& b.average(LatencyMode::Streaming) == a.average(LatencyMode::Streaming)
            &&& b.average(LatencyMode::NonStreaming) == a.average(LatencyMode::NonStreaming)
            &&& call_ensures(blend_rate, (before.alpha(), Double { bits: 0 }, a.rate()), b.rate())
        },
{
}

/// What a tracker gives: it starts empty with its settings, and each candidate
/// gets the next slot, of which nothing is known.
pub proof fn trackers_deal_out_fresh_slots(
    alpha: Double,
    threshold: Double,
    fresh: Tracker,
    tracker: &mut Tracker,
    index: usize,
)
    requires
        call_ensures(Tracker::new, (alpha, threshold), fresh),
        call_ensures(Tracker::register, (tracker,), index),
    ensures
        fresh@.len() == 0 && fresh.alpha() == alpha && fresh.threshold() == threshold,
        index == old(tracker)@.len() && final(tracker)@.len() == index + 1,
        final(tracker)@[index as int].rate().bits == 0x3FF0_0000_0000_0000,
        final(tracker)@[index as int].average(LatencyMode::Streaming) == u64::MAX,
        final(tracker)@[index as int].average(LatencyMode::NonStreaming) == u64::MAX,
        final(tracker)@.take(index as int) == old(tracker)@,
{
}

/// What is asked of a candidate's averages.
pub proof fn averages_are_told_as_they_are(
    stats: &CandidateStats,
    mode: LatencyMode,
    ms: u64,
    cold: bool,
    rate: Double,
    fresh: CandidateStats,
)
    requires
        call_ensures(CandidateStats::ewma_ms, (stats, mode), ms),
        call_ensures(CandidateStats::is_cold, (stats, mode), cold),
        call_ensures(CandidateStats::success_rate, (stats,), rate),
        call_ensures(CandidateStats::new, (), fresh),
    ensures
        ms == stats.average(mode),
        cold <==> stats.average(mode) == u64::MAX,
        rate == stats.rate(),
        fresh.average(mode) == u64::MAX && fresh.rate().bits == 0x3FF0_0000_0000_0000,
{
}

/// What `is_degraded` gives: whether the error rate that the candidate's
/// success rate gives is above the threshold.
pub proof fn degraded_is_above_the_threshold<E: Fn(Double) -> Double>(
    tracker: &Tracker,
    index: usize,
    error_rate: &E,
    r: bool,
)
    requires
        call_ensures(Tracker::is_degraded::<E>, (tracker, index, error_rate), r),
    ensures
        exists|e: Double| #[trigger]
            call_ensures(error_rate, (tracker@[index as int].rate(),), e) && (r <==> !e.nan()
                && !tracker.threshold().nan() && tracker.threshold().scaled() < e.scaled()),
{
    let e = choose|e: Double| #[trigger]
        call_ensures(error_rate, (tracker@[index as int].rate(),), e) && r
            == tracker.threshold().below(e);
    crate::double::doubles_are_ordered_by_their_bits(tracker.threshold(), e);
    assert(call_ensures(error_rate, (tracker@[index as int].rate(),), e));
}

/// What recording does: a success teaches the candidate its latency and a one,
/// an error a nothing.
pub proof fn recording_teaches_one_candidate<
    L: Fn(Double, u64, u64) -> u64,
    R: Fn(Double, Double, Double) -> Double,
>(
    tracker: &mut Tracker,
    index: usize,
    mode: LatencyMode,
    nanos: u128,
    blend_latency: &L,
    blend_rate: &R,
    other: &mut Tracker,
)
    requires
        call_ensures(
            Tracker::record_success::<L, R>,
            (tracker, index, mode, nanos, blend_latency, blend_rate),
            (),
        ),
        call_ensures(Tracker::record_error::<R>, (other, index, blend_rate), ()),
    ensures
        ({
            let a = old(tracker)@[index as int];
            let b = final(tracker)@[index as int];
            &&& a.average(mode) == u64::MAX ==> b.average(mode) == millis(nanos)
            &&& a.average(mode) < u64::MAX ==> call_ensures(
                blend_latency,
                (old(tracker).alpha(), millis(nanos), a.average(mode)),
                b.average(mode),
            )
            &&& call_ensures(
                blend_rate,
                (old(tracker).alpha(), Double { bits: 0x3FF0_0000_0000_0000 }, a.rate()),
                b.rate(),
            )
        }),
        ({
            let a = old(other)@[index as int];
            let b = final(other)@[index as int];
            &&& b.average(LatencyMode::Streaming) == a.average(LatencyMode::Streaming)
            &&& b.average(LatencyMode::NonStreaming) == a.average(LatencyMode::NonStreaming)
            &&& call_ensures(
                blend_rate,
                (old(other).alpha(), Double { bits: 0 }, a.rate()),
                b.rate(),
            )
        }),
{
}

/// What a mode is called, and which one a request has.
pub proof fn modes_are_named(mode: LatencyMode, name: &'static str, streaming: bool, of: LatencyMode)
    requires
        call_ensures(LatencyMode::as_str, (mode,), name),
        call_ensures(LatencyMode::of, (streaming,), of),
    ensures
        mode == LatencyMode::Streaming ==> name@ == "streaming"@,
        mode == LatencyMode::NonStreaming ==> name@ == "nonstreaming"@,
        streaming <==> of == LatencyMode::Streaming,
{
}

} // verus!
