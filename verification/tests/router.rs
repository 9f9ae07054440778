use sturnus::double::Double;
use sturnus::model_map::{ProviderKind, ResolvedCandidate};
use sturnus::router::{
    best_latency, effective_latencies, pick, select_candidate, weigh, RoundRobinState, Standing,
    COLD_PROBE_WEIGHT, EXPLOIT_K, MIN_SUCCESS_RATE, WEYL_INVERSE, WEYL_STEP,
};
use sturnus::tracker::{LatencyMode, Tracker};

fn double(x: f64) -> Double {
    Double::from_bits(x.to_bits())
}

fn value(x: Double) -> f64 {
    f64::from_bits(x.to_bits())
}

fn effective(ms: u64, rate: Double) -> Double {
    double(ms as f64 / value(rate))
}

fn share(k: Double, s: Standing) -> usize {
    let raw = match s {
        Standing::Warm { effective, best } => (value(best) / value(effective)).powf(value(k)),
        Standing::Cold { rate, base } => value(base) * value(rate).powf(value(k)),
    };
    (raw * 1000.0).round() as usize
}

fn blend_latency(_alpha: Double, observed: u64, _average: u64) -> u64 {
    observed
}

fn blend_rate(alpha: Double, sample: Double, rate: Double) -> Double {
    let alpha = value(alpha);
    double(alpha * value(sample) + (1.0 - alpha) * value(rate))
}

fn candidate(name: &str, stats_index: usize) -> ResolvedCandidate {
    ResolvedCandidate {
        provider_name: name.into(),
        model: "m".into(),
        base_url: "http://x".into(),
        api_key: None,
        kind: ProviderKind::ApiKey,
        stats_index,
        provider_header: vec![],
        affinity_header: vec![],
        attribution_labels: None,
    }
}

fn setup(latencies: &[Option<u64>]) -> (Vec<ResolvedCandidate>, Tracker) {
    let mut tracker = Tracker::new(double(0.3), double(0.5));
    let candidates = latencies
        .iter()
        .enumerate()
        .map(|(i, ms)| {
            let index = tracker.register();
            if let Some(ms) = ms {
                tracker.record_success(
                    index,
                    LatencyMode::Streaming,
                    u128::from(*ms) * 1_000_000,
                    &blend_latency,
                    &blend_rate,
                );
            }
            candidate(&format!("c{i}"), index)
        })
        .collect();
    (candidates, tracker)
}

fn weights(latencies: &[Option<u64>]) -> Vec<usize> {
    let (candidates, tracker) = setup(latencies);
    let es = effective_latencies(&candidates, &tracker, LatencyMode::Streaming, &effective);
    weigh(&candidates, &tracker, &es, double(3.0), &share)
}

#[test]
fn default_sharpness() {
    assert_eq!(f64::from_bits(EXPLOIT_K), 3.0);
    assert_eq!(f64::from_bits(COLD_PROBE_WEIGHT), 0.25);
    assert_eq!(f64::from_bits(MIN_SUCCESS_RATE), 1e-3);
}

#[test]
fn weights_fall_with_the_cube_of_latency() {
    assert_eq!(
        weights(&[Some(100), Some(200), Some(500), Some(10_000)]),
        [1000, 125, 10, 10]
    );
    assert_eq!(weights(&[Some(0), Some(1)]), [1000, 1000]);
}

#[test]
fn cold_candidates_probe_at_a_quarter() {
    assert_eq!(weights(&[Some(100), None]), [1000, 250]);
    // Nobody is measured: everyone gets a full share.
    assert_eq!(weights(&[None, None]), [1000, 1000]);
}

#[test]
fn erroring_candidates_back_off_to_the_floor() {
    let (candidates, mut tracker) = setup(&[Some(100), Some(100), None]);
    for _ in 0..30 {
        tracker.record_error(1, &blend_rate);
        tracker.record_error(2, &blend_rate);
    }
    let es = effective_latencies(&candidates, &tracker, LatencyMode::Streaming, &effective);
    assert_eq!(es[0], Some(double(100.0)));
    assert_eq!(es[1], Some(double(100_000.0)));
    assert_eq!(es[2], None);
    assert_eq!(weigh(&candidates, &tracker, &es, double(3.0), &share), [1000, 10, 10]);
}

#[test]
fn modes_are_judged_apart() {
    let (candidates, tracker) = setup(&[Some(100)]);
    let es = effective_latencies(&candidates, &tracker, LatencyMode::NonStreaming, &effective);
    assert_eq!(es, [None]);
}

#[test]
fn best_is_the_least_or_infinite() {
    assert_eq!(best_latency(&vec![]), double(f64::INFINITY));
    assert_eq!(best_latency(&vec![None, None]), double(f64::INFINITY));
    assert_eq!(
        best_latency(&vec![
            Some(double(3.0)),
            None,
            Some(double(2.5)),
            Some(double(2.75))
        ]),
        double(2.5)
    );
}

#[test]
fn pick_follows_the_weyl_sequence() {
    let ws = vec![1000, 125, 10];
    for tick in 0..2000u64 {
        let spread = tick.wrapping_mul(WEYL_STEP);
        let pos = ((u128::from(spread) * 1135) >> 64) as usize;
        let expected = if pos < 1000 {
            0
        } else if pos < 1125 {
            1
        } else {
            2
        };
        assert_eq!(pick(&ws, tick), expected);
    }
    assert_eq!(pick(&vec![0, 0, 0], 5), 2);
    assert_eq!(pick(&vec![0, 7, 0], u64::MAX), 1);
    assert_eq!(pick(&vec![7], 12345), 0);
}

#[test]
fn picks_are_proportional_to_weight() {
    let ws = vec![500, 300, 200];
    let mut counts = [0usize; 3];
    for tick in 0..10_000u64 {
        counts[pick(&ws, tick)] += 1;
    }
    for (count, expected) in counts.iter().zip([5000usize, 3000, 2000]) {
        assert!(count.abs_diff(expected) <= 5, "{counts:?}");
    }
}

#[test]
fn the_weyl_step_has_an_inverse() {
    assert_eq!(WEYL_STEP.wrapping_mul(WEYL_INVERSE), 1);
}

#[test]
fn no_weighted_candidate_starves() {
    let ws = vec![1000, 10, 1000];
    assert!((0..400u64).any(|tick| pick(&ws, tick) == 1));
}

#[test]
fn counters_run_per_alias() {
    let mut rr = RoundRobinState::new();
    rr.register_alias("a".to_string());
    rr.register_alias("b".to_string());
    assert_eq!(rr.next_tick("a"), 0);
    assert_eq!(rr.next_tick("a"), 1);
    assert_eq!(rr.next_tick("b"), 0);
    rr.register_alias("a".to_string());
    assert_eq!(rr.next_tick("a"), 2);
    assert_eq!(rr.next_tick("unknown"), 0);
    assert_eq!(rr.next_tick("unknown"), 0);
}

#[test]
fn selection_walks_the_schedule() {
    let (candidates, tracker) = setup(&[Some(100), Some(200)]);
    let mut rr = RoundRobinState::default();
    rr.register_alias("fast".to_string());
    let mut counts = [0usize; 2];
    for tick in 0..1125u64 {
        let c = select_candidate(
            "fast",
            &candidates,
            &tracker,
            &mut rr,
            double(3.0),
            LatencyMode::Streaming,
            &effective,
            &share,
        )
        .unwrap();
        assert_eq!(c.stats_index, pick(&vec![1000, 125], tick));
        counts[c.stats_index] += 1;
    }
    assert!(counts[0].abs_diff(1000) <= 3, "{counts:?}");
}

#[test]
fn nobody_to_select_from() {
    let (_, tracker) = setup(&[]);
    let mut rr = RoundRobinState::new();
    rr.register_alias("a".to_string());
    let none = select_candidate(
        "a",
        &[],
        &tracker,
        &mut rr,
        double(3.0),
        LatencyMode::Streaming,
        &effective,
        &share,
    );
    assert!(none.is_none());
    assert_eq!(rr.next_tick("a"), 0);
}

#[test]
fn a_recovered_candidate_is_found_within_144_ticks() {
    for weights in [vec![1000, 10], vec![10, 1000], vec![500, 10, 500], vec![1, 100]] {
        let weakest = (0..weights.len()).min_by_key(|i| weights[*i]).unwrap();
        for start in [0, 1, 12_345, 1 << 40, u64::MAX - 100] {
            assert!(
                (0..144).any(|n| pick(&weights, u64::wrapping_add(start, n)) == weakest),
                "{weights:?} from {start}"
            );
        }
    }
}

#[test]
fn selection_depends_on_ratios_alone() {
    let fast = [Some(3), Some(7), Some(50), Some(7)];
    let slow: Vec<Option<u64>> = fast.iter().map(|ms| ms.map(|ms| ms << 20)).collect();
    assert_eq!(weights(&fast), weights(&slow));
    let (cs, a) = setup(&fast);
    let (_, b) = setup(&slow);
    let mut rr_a = RoundRobinState::new();
    let mut rr_b = RoundRobinState::new();
    rr_a.register_alias("x".to_string());
    rr_b.register_alias("x".to_string());
    let k = double(3.0);
    let mode = LatencyMode::Streaming;
    for _ in 0..200 {
        let one = select_candidate("x", &cs, &a, &mut rr_a, k, mode, &effective, &share);
        let two = select_candidate("x", &cs, &b, &mut rr_b, k, mode, &effective, &share);
        assert_eq!(one.unwrap().provider_name, two.unwrap().provider_name);
    }
}
