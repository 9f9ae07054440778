use prometheus::{
    Encoder, HistogramOpts, HistogramVec, IntCounter, IntCounterVec, Opts, Registry, TextEncoder,
};
use sturnus::logging::{default_filter, use_color, LogFormat};
use sturnus::metrics::{content_type, latency_buckets_ms, rejection_sample, Metric, Update};
use sturnus::tracker::LatencyMode;

fn counter(metric: Metric) -> IntCounterVec {
    IntCounterVec::new(Opts::new(metric.name(), metric.help()), &metric.labels()).unwrap()
}

fn histogram(metric: Metric) -> HistogramVec {
    let buckets = latency_buckets_ms()
        .iter()
        .map(|ms| *ms as f64 / 1000.0)
        .collect();
    HistogramVec::new(
        HistogramOpts::new(metric.name(), metric.help()).buckets(buckets),
        &metric.labels(),
    )
    .unwrap()
}

#[test]
fn encode_returns_valid_prometheus_text() {
    let registry = Registry::new();
    let requests = counter(Metric::RequestsTotal);
    let ttfc = histogram(Metric::TtfcSeconds);
    let latency = histogram(Metric::LatencySeconds);
    let errors = counter(Metric::ErrorsTotal);
    let rejections = IntCounter::new(
        Metric::BufferRejectionsTotal.name(),
        Metric::BufferRejectionsTotal.help(),
    )
    .unwrap();
    registry.register(Box::new(requests.clone())).unwrap();
    registry.register(Box::new(ttfc.clone())).unwrap();
    registry.register(Box::new(latency.clone())).unwrap();
    registry.register(Box::new(errors.clone())).unwrap();
    registry.register(Box::new(rejections.clone())).unwrap();

    requests
        .with_label_values(&["fast", "openai", "gpt-4o-mini", "200"])
        .inc();
    ttfc.with_label_values(&["fast", "openai", "gpt-4o-mini"])
        .observe(0.42);
    latency
        .with_label_values(&["fast", "openai", "gpt-4o-mini"])
        .observe(1.5);
    errors
        .with_label_values(&["fast", "groq", "llama-3"])
        .inc();

    let mut buf = Vec::new();
    TextEncoder::new()
        .encode(&registry.gather(), &mut buf)
        .unwrap();
    let output = String::from_utf8(buf).unwrap();
    assert!(output.contains("sturnus_requests_total"));
    assert!(output.contains("sturnus_ttfc_seconds"));
    assert!(output.contains("sturnus_latency_seconds"));
    assert!(output.contains("sturnus_errors_total"));
    assert!(output.contains("sturnus_buffer_rejections_total 0"));
    assert!(output.contains("alias=\"fast\""));
    assert!(output.contains("provider=\"openai\""));
    assert!(output.contains("status_code=\"200\""));
    assert!(output.contains("le=\"0.25\""));
    assert!(output.contains("le=\"30\""));
}

#[test]
fn names_are_distinct() {
    let mut names: Vec<&str> = [
        Metric::RequestsTotal,
        Metric::TtfcSeconds,
        Metric::LatencySeconds,
        Metric::ErrorsTotal,
        Metric::BufferRejectionsTotal,
    ]
    .iter()
    .map(|m| m.name())
    .collect();
    names.sort();
    names.dedup();
    assert_eq!(names.len(), 5);
    assert_eq!(
        Metric::RequestsTotal.labels(),
        ["alias", "provider", "model", "status_code"]
    );
    assert!(Metric::BufferRejectionsTotal.labels().is_empty());
}

#[test]
fn latencies_go_to_the_histogram_of_their_mode() {
    assert_eq!(
        Metric::of_latency(LatencyMode::Streaming),
        Metric::TtfcSeconds
    );
    assert_eq!(
        Metric::of_latency(LatencyMode::NonStreaming),
        Metric::LatencySeconds
    );
    assert_eq!(
        latency_buckets_ms(),
        [100, 250, 500, 1000, 2500, 5000, 10000, 30000]
    );
}

#[test]
fn metrics_are_plain_text() {
    assert_eq!(content_type(), "text/plain; version=0.0.4; charset=utf-8");
}

#[test]
fn rejections_have_no_labels() {
    let sample = rejection_sample();
    assert_eq!(sample.metric, Metric::BufferRejectionsTotal);
    assert!(sample.labels.is_empty());
    assert_eq!(sample.update, Update::Increment);
}

#[test]
fn log_formats() {
    assert!(LogFormat::Json.is_json(true));
    assert!(!LogFormat::Pretty.is_json(false));
    assert!(LogFormat::Auto.is_json(false));
    assert!(!LogFormat::Auto.is_json(true));
    assert!(use_color(true, false));
    assert!(!use_color(true, true));
    assert!(!use_color(false, false));
    assert_eq!(default_filter(), "sturnus=info");
}
