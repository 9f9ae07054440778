use sturnus::double::Double;
use sturnus::tracker::{to_millis, CandidateStats, LatencyMode, Tracker};

const MS: u128 = 1_000_000;

fn double(x: f64) -> Double {
    Double::from_bits(x.to_bits())
}

fn value(x: Double) -> f64 {
    f64::from_bits(x.to_bits())
}

fn blend_latency(alpha: Double, observed: u64, average: u64) -> u64 {
    let alpha = value(alpha);
    (alpha * observed as f64 + (1.0 - alpha) * average as f64).round() as u64
}

fn blend_rate(alpha: Double, sample: Double, rate: Double) -> Double {
    let alpha = value(alpha);
    double(alpha * value(sample) + (1.0 - alpha) * value(rate))
}

fn error_rate(rate: Double) -> Double {
    double(1.0 - value(rate))
}

fn observe(stats: &mut CandidateStats, mode: LatencyMode, ms: u64) {
    stats.update_ewma(mode, ms, double(0.3), &blend_latency);
}

#[test]
fn ewma_first_observation_sets_directly() {
    let mut stats = CandidateStats::new();
    assert!(stats.is_cold(LatencyMode::Streaming));
    observe(&mut stats, LatencyMode::Streaming, 100);
    assert_eq!(stats.ewma_ms(LatencyMode::Streaming), 100);
    assert!(!stats.is_cold(LatencyMode::Streaming));
}

#[test]
fn ewma_blends_subsequent_observations() {
    let mut stats = CandidateStats::new();
    observe(&mut stats, LatencyMode::Streaming, 100);
    observe(&mut stats, LatencyMode::Streaming, 200);
    assert_eq!(stats.ewma_ms(LatencyMode::Streaming), 130);
}

#[test]
fn ewma_converges_toward_constant_signal() {
    let mut stats = CandidateStats::new();
    for _ in 0..50 {
        observe(&mut stats, LatencyMode::Streaming, 500);
    }
    assert_eq!(stats.ewma_ms(LatencyMode::Streaming), 500);
}

#[test]
fn streaming_and_nonstreaming_ewmas_are_independent() {
    let mut stats = CandidateStats::new();
    observe(&mut stats, LatencyMode::Streaming, 100);
    assert_eq!(stats.ewma_ms(LatencyMode::Streaming), 100);
    assert!(stats.is_cold(LatencyMode::NonStreaming));

    observe(&mut stats, LatencyMode::NonStreaming, 5_000);
    assert_eq!(stats.ewma_ms(LatencyMode::Streaming), 100);
    assert_eq!(stats.ewma_ms(LatencyMode::NonStreaming), 5_000);
}

#[test]
fn success_rate_starts_optimistic() {
    let stats = CandidateStats::new();
    assert!((value(stats.success_rate()) - 1.0).abs() < f64::EPSILON);
    assert_eq!(CandidateStats::default().success_rate(), double(1.0));
}

#[test]
fn success_rate_blends_like_an_ewma() {
    let mut stats = CandidateStats::new();
    stats.record_outcome(false, double(0.3), &blend_rate);
    assert!((value(stats.success_rate()) - 0.7).abs() < 1e-12);
    stats.record_outcome(true, double(0.3), &blend_rate);
    assert!((value(stats.success_rate()) - 0.79).abs() < 1e-12);
}

#[test]
fn degraded_when_error_ewma_breaches_threshold() {
    let mut tracker = Tracker::new(double(0.3), double(0.5));
    let idx = tracker.register();
    assert!(!tracker.is_degraded(idx, &error_rate));

    // At alpha 0.3 the error EWMA is 0.3 after one error, 0.51 after two.
    tracker.record_error(idx, &blend_rate);
    assert!(!tracker.is_degraded(idx, &error_rate));
    tracker.record_error(idx, &blend_rate);
    assert!(tracker.is_degraded(idx, &error_rate));

    tracker.record_success(
        idx,
        LatencyMode::Streaming,
        100 * MS,
        &blend_latency,
        &blend_rate,
    );
    assert!(!tracker.is_degraded(idx, &error_rate));
}

#[test]
fn record_success_updates_ewma_for_correct_mode() {
    let mut tracker = Tracker::new(double(0.3), double(0.5));
    let idx = tracker.register();
    tracker.record_success(
        idx,
        LatencyMode::Streaming,
        150 * MS,
        &blend_latency,
        &blend_rate,
    );
    assert_eq!(tracker.stats(idx).ewma_ms(LatencyMode::Streaming), 150);
    assert!(tracker.stats(idx).is_cold(LatencyMode::NonStreaming));
    assert!((value(tracker.stats(idx).success_rate()) - 1.0).abs() < f64::EPSILON);
}

#[test]
fn errors_leave_latencies_and_other_candidates_alone() {
    let mut tracker = Tracker::new(double(0.3), double(0.5));
    let a = tracker.register();
    let b = tracker.register();
    assert_eq!((a, b), (0, 1));
    tracker.record_success(
        a,
        LatencyMode::NonStreaming,
        9 * MS,
        &blend_latency,
        &blend_rate,
    );
    tracker.record_error(a, &blend_rate);
    assert_eq!(tracker.stats(a).ewma_ms(LatencyMode::NonStreaming), 9);
    assert!(tracker.stats(a).is_cold(LatencyMode::Streaming));
    assert_eq!(value(tracker.stats(a).success_rate()), 0.7);
    assert!(tracker.stats(b).is_cold(LatencyMode::NonStreaming));
    assert_eq!(value(tracker.stats(b).success_rate()), 1.0);
}

#[test]
fn the_threshold_itself_is_not_degraded() {
    let mut tracker = Tracker::new(double(0.5), double(0.5));
    let idx = tracker.register();
    tracker.record_error(idx, &blend_rate);
    assert!(!tracker.is_degraded(idx, &error_rate));
    tracker.record_error(idx, &blend_rate);
    assert!(tracker.is_degraded(idx, &error_rate));
}

#[test]
fn milliseconds_are_whole() {
    assert_eq!(to_millis(0), 0);
    assert_eq!(to_millis(999_999), 0);
    assert_eq!(to_millis(1_999_999), 1);
    assert_eq!(to_millis(MS << 64), 0);
}

#[test]
fn modes_have_names() {
    assert_eq!(LatencyMode::Streaming.as_str(), "streaming");
    assert_eq!(LatencyMode::NonStreaming.as_str(), "nonstreaming");
    assert_eq!(LatencyMode::of(true), LatencyMode::Streaming);
    assert_eq!(LatencyMode::of(false), LatencyMode::NonStreaming);
}

#[test]
fn modes_are_cold_until_their_first_sample() {
    let mut stats = CandidateStats::new();
    for success in [true, false, false, true] {
        stats.record_outcome(success, double(0.3), &blend_rate);
        assert!(stats.is_cold(LatencyMode::Streaming));
    }
    observe(&mut stats, LatencyMode::NonStreaming, 7);
    assert!(stats.is_cold(LatencyMode::Streaming));
    observe(&mut stats, LatencyMode::Streaming, 0);
    for ms in [0, 1 << 49, 3, (1 << 50) - 1] {
        observe(&mut stats, LatencyMode::Streaming, ms);
        assert!(!stats.is_cold(LatencyMode::Streaming));
    }
}

#[test]
fn averages_stay_between_the_old_one_and_the_sample() {
    let mut stats = CandidateStats::new();
    observe(&mut stats, LatencyMode::Streaming, 100);
    let mut before = 100;
    for ms in [100, 101, 7, 0, 0, 5_000_000, 3, 3] {
        observe(&mut stats, LatencyMode::Streaming, ms);
        let after = stats.ewma_ms(LatencyMode::Streaming);
        assert!(before.min(ms) <= after && after <= before.max(ms));
        before = after;
    }
}

#[test]
fn rates_stay_from_zero_to_one_and_follow_the_outcomes() {
    let mut stats = CandidateStats::new();
    for i in 0..200 {
        let before = value(stats.success_rate());
        let success = i % 7 < 3;
        stats.record_outcome(success, double(0.3), &blend_rate);
        let after = value(stats.success_rate());
        assert!((0.0..=1.0).contains(&after));
        if success {
            assert!(after >= before - 1e-15);
        } else {
            assert!(after <= before);
        }
        assert!(stats.is_cold(LatencyMode::Streaming));
    }
}
