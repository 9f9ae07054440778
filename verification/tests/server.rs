use sturnus::budget::BufferBudget;
use sturnus::config::{Config, ModelCandidate, ProviderConfig, RoutingConfig};
use sturnus::double::Double;
use sturnus::metrics::{zero_error_samples, Metric, Sample, Update};
use sturnus::model_map::ModelMap;
use sturnus::proxy::UpstreamLatency;
use sturnus::router::{RoundRobinState, Standing};
use sturnus::server::{
    admission, body_read_failure, find_pinned, health_url, is_healthy, is_reportable, json_error,
    plan_request, prepare_request, read_body, response_headers, route, settle_failure,
    settle_response, status_rows, Action, Admission, Event, Forward, Health, Phase, Reply, Route,
    Surface,
};
use sturnus::tracker::{LatencyMode, Tracker};

fn double(x: f64) -> Double {
    Double::from_bits(x.to_bits())
}

fn value(x: Double) -> f64 {
    f64::from_bits(x.to_bits())
}

fn effective(ms: u64, rate: Double) -> Double {
    double(ms as f64 / value(rate))
}

fn share(k: Double, s: Standing) -> usize {
    let raw = match s {
        Standing::Warm { effective, best } => (value(best) / value(effective)).powf(value(k)),
        Standing::Cold { rate, base } => value(base) * value(rate).powf(value(k)),
    };
    (raw * 1000.0).round() as usize
}

fn error_rate(rate: Double) -> Double {
    double(1.0 - value(rate))
}

fn blend_latency(alpha: Double, observed: u64, average: u64) -> u64 {
    let alpha = value(alpha);
    (alpha * observed as f64 + (1.0 - alpha) * average as f64).round() as u64
}

fn blend_rate(alpha: Double, sample: Double, rate: Double) -> Double {
    let alpha = value(alpha);
    double(alpha * value(sample) + (1.0 - alpha) * value(rate))
}

struct State {
    map: ModelMap,
    tracker: Tracker,
    rr: RoundRobinState,
}

impl State {
    fn new(aliases: &[(&str, &[(&str, &str)])]) -> State {
        let mut names: Vec<&str> = aliases
            .iter()
            .flat_map(|(_, cs)| cs.iter().map(|(p, _)| *p))
            .collect();
        names.sort();
        names.dedup();
        let config = Config {
            listen: "127.0.0.1:0".into(),
            metrics_listen: None,
            provider: names
                .iter()
                .map(|name| {
                    let provider = ProviderConfig {
                        base_url: Some("http://127.0.0.1:9".into()),
                        ..Default::default()
                    };
                    (name.to_string(), provider)
                })
                .collect(),
            model: aliases
                .iter()
                .map(|(alias, cs)| {
                    let cs = cs
                        .iter()
                        .map(|(p, m)| ModelCandidate {
                            provider: p.to_string(),
                            model: m.to_string(),
                        })
                        .collect();
                    (alias.to_string(), cs)
                })
                .collect(),
            routing: RoutingConfig::default(),
            attribution: vec![],
        };
        config.validate().unwrap();
        let mut tracker = Tracker::new(double(0.3), double(0.5));
        let map = ModelMap::from_config(&config, &mut tracker).unwrap();
        let mut rr = RoundRobinState::new();
        for (alias, _) in &config.model {
            rr.register_alias(alias.clone());
        }
        State { map, tracker, rr }
    }

    fn forward(&mut self, body: &str, affinity: Option<&str>) -> Result<Forward<'_>, Reply> {
        prepare_request(
            body.as_bytes(),
            affinity.map(str::as_bytes),
            &self.map,
            &self.tracker,
            &mut self.rr,
            double(3.0),
            &effective,
            &share,
            &error_rate,
        )
    }
}

fn error_text(message: &str) -> String {
    format!(
        "{{\"error\":{{\"message\":{},\"type\":\"invalid_request_error\"}}}}",
        serde_json::to_string(message).unwrap()
    )
}

fn assert_error(reply: &Reply, status: u16, message: &str) {
    assert_eq!(reply.status, status);
    assert_eq!(reply.body, error_text(message));
    assert_eq!(reply.retry_after, None);
    assert_eq!(
        reply.headers(),
        [("content-type", "application/json".to_string())]
    );
}

fn answer(method: &str, path: &str, surface: Surface, shutting_down: bool) -> Reply {
    match route(method, path, surface, shutting_down) {
        Route::Answer(reply) => reply,
        other => panic!("{other:?}"),
    }
}

#[test]
fn errors_are_json() {
    let reply = json_error(418, "a \"quoted\"\nline");
    assert_eq!(reply.status, 418);
    assert_eq!(
        reply.body,
        "{\"error\":{\"message\":\"a \\\"quoted\\\"\\nline\",\"type\":\"invalid_request_error\"}}"
    );
    let parsed: serde_json::Value = serde_json::from_str(&reply.body).unwrap();
    assert_eq!(parsed["error"]["message"], "a \"quoted\"\nline");
}

#[test]
fn health_reports_shutdown() {
    for path in ["/health", "/healthz"] {
        let reply = answer("GET", path, Surface::Full, false);
        assert_eq!((reply.status, reply.body.as_str()), (200, r#"{"status":"ok"}"#));
        let reply = answer("GET", path, Surface::Observability, true);
        assert_eq!(
            (reply.status, reply.body.as_str()),
            (503, r#"{"status":"shutting_down"}"#)
        );
    }
}

#[test]
fn routes_by_method_and_path() {
    assert!(matches!(
        route("GET", "/status", Surface::Full, false),
        Route::Status
    ));
    assert!(matches!(
        route("GET", "/metrics", Surface::Observability, false),
        Route::Metrics
    ));
    assert!(matches!(
        route("POST", "/v1/chat/completions", Surface::Full, false),
        Route::Proxy
    ));
    assert_error(
        &answer("GET", "/v1/models", Surface::Full, false),
        404,
        "not found",
    );
    assert_error(
        &answer("PUT", "/health", Surface::Full, false),
        405,
        "method not allowed",
    );
    assert_error(
        &answer("get", "/health", Surface::Full, false),
        405,
        "method not allowed",
    );
}

#[test]
fn the_observability_listener_never_proxies() {
    for path in ["/v1/chat/completions", "/metrics", "/health"] {
        assert_error(
            &answer("POST", path, Surface::Observability, false),
            405,
            "method not allowed",
        );
    }
}

#[test]
fn bodies_need_a_length_within_the_cap() {
    let mut budget = BufferBudget::new(4 * 1024, 32 * 1024 * 1024);
    match admission(&mut budget, None) {
        Admission::Refused(reply) => assert_error(&reply, 411, "Content-Length is required"),
        other => panic!("{other:?}"),
    }
    match admission(&mut budget, Some(8 * 1024)) {
        Admission::Refused(reply) => {
            assert_error(&reply, 413, "request body too large (max 0 MB)")
        }
        other => panic!("{other:?}"),
    }
    assert_eq!(budget.available_permits(), 4);
    let mut budget = BufferBudget::new(256 * 1024 * 1024, 32 * 1024 * 1024);
    match admission(&mut budget, Some(32 * 1024 * 1024 + 1)) {
        Admission::Refused(reply) => {
            assert_error(&reply, 413, "request body too large (max 32 MB)")
        }
        other => panic!("{other:?}"),
    }
}

#[test]
fn an_exhausted_budget_sheds_with_a_hint_to_retry() {
    let mut budget = BufferBudget::new(4 * 1024, 4 * 1024);
    let held = match admission(&mut budget, Some(3 * 1024 + 1)) {
        Admission::Granted(n) => n,
        other => panic!("{other:?}"),
    };
    assert_eq!(held, 4);
    match admission(&mut budget, Some(0)) {
        Admission::Shed(reply) => {
            assert_eq!(reply.status, 429);
            assert_eq!(
                reply.body,
                error_text("buffer budget exhausted, retry shortly")
            );
            assert_eq!(reply.retry_after, Some(1));
            assert_eq!(
                reply.headers(),
                [
                    ("content-type", "application/json".to_string()),
                    ("retry-after", "1".to_string())
                ]
            );
        }
        other => panic!("{other:?}"),
    }
    budget.release(held);
    assert!(matches!(
        admission(&mut budget, Some(0)),
        Admission::Granted(1)
    ));
    assert_eq!(budget.available_permits(), 3);
}

#[test]
fn unreadable_bodies() {
    assert_error(
        &body_read_failure(true, 1024 * 1024),
        413,
        "request body too large (max 1 MB)",
    );
    assert_error(
        &body_read_failure(false, 1),
        400,
        "failed to read request body",
    );
}

#[test]
fn bodies_that_are_no_json_object() {
    assert_error(
        &read_body(b"[]").unwrap_err(),
        400,
        "request body must be a JSON object",
    );
    assert_error(
        &read_body(b"{").unwrap_err(),
        400,
        "request body is not valid JSON: EOF while parsing an object at line 1 column 1",
    );
    assert!(read_body(b"{}").is_ok());
}

#[test]
fn requests_that_name_nobody() {
    let mut state = State::new(&[("fast", &[("p", "m")]), ("emp\"ty", &[])]);
    let missing = "missing 'model' field in request body";
    assert_error(&state.forward("{}", None).unwrap_err(), 400, missing);
    assert_error(
        &state.forward(r#"{"model":7}"#, None).unwrap_err(),
        400,
        missing,
    );
    assert_error(
        &state.forward(r#"{"model":"slow"}"#, None).unwrap_err(),
        400,
        "unknown model alias 'slow', available: [\"fast\", \"emp\\\"ty\"]",
    );
    assert_error(
        &state.forward(r#"{"model":"emp\"ty"}"#, None).unwrap_err(),
        502,
        "no healthy candidate for model alias 'emp\"ty'",
    );
    assert_error(
        &state.forward("7", None).unwrap_err(),
        400,
        "request body must be a JSON object",
    );
}

#[test]
fn requests_go_out_with_the_real_model() {
    let mut state = State::new(&[("fast", &[("p", "real-m")])]);
    let f = state
        .forward(r#"{"stream": true, "model":"fast","x":[1, 2]}"#, None)
        .unwrap();
    assert_eq!(f.alias, "fast");
    assert!(f.streaming);
    assert_eq!(f.candidate.model, "real-m");
    assert_eq!(
        f.body.data().unwrap(),
        br#"{"stream": true, "model":"real-m","x":[1, 2]}"#
    );
    let f = state.forward(r#"{"model":"fast"}"#, None).unwrap();
    assert!(!f.streaming);
    let f = state
        .forward(r#"{"model":"fast","stream":"yes"}"#, None)
        .unwrap();
    assert!(!f.streaming);
}

#[test]
fn affinity_pins_until_the_candidate_degrades() {
    let mut state = State::new(&[("fast", &[("alpha", "m"), ("beta", "org/m")])]);
    for _ in 0..10 {
        let f = state
            .forward(r#"{"model":"fast"}"#, Some("beta/org/m"))
            .unwrap();
        assert_eq!(f.candidate.affinity_header, b"beta/org/m");
    }
    // The pin leaves the schedule alone.
    assert_eq!(state.rr.next_tick("fast"), 0);
    for _ in 0..10 {
        state.tracker.record_error(1, &blend_rate);
    }
    // Over the threshold the header is ignored: the schedule decides.
    let mut alpha = 0;
    for _ in 0..50 {
        let f = state
            .forward(r#"{"model":"fast"}"#, Some("beta/org/m"))
            .unwrap();
        if f.candidate.provider_name == "alpha" {
            alpha += 1;
        }
    }
    assert!(alpha >= 45, "{alpha}");
}

#[test]
fn malformed_affinity_is_ignored() {
    let mut state = State::new(&[("fast", &[("p", "m")])]);
    for bad in ["", "garbage", "p", "p/other", "other/m", "p/m/", "\u{e9}/m"] {
        let f = state.forward(r#"{"model":"fast"}"#, Some(bad)).unwrap();
        assert_eq!(f.candidate.provider_name, "p", "{bad}");
        let cs = state.map.get("fast").unwrap();
        assert_eq!(find_pinned(cs, Some(bad.as_bytes())), None, "{bad}");
    }
    let cs = state.map.get("fast").unwrap();
    assert_eq!(find_pinned(cs, Some(b"p/m")), Some(0));
    assert_eq!(find_pinned(cs, None), None);
    assert_eq!(state.rr.next_tick("fast"), 7);
}

#[test]
fn response_affinity_sent_back_pins_the_same_candidate() {
    let state = State::new(&[("fast", &[("a", "x/y"), ("b", "x/y"), ("a", "z")])]);
    let cs = state.map.get("fast").unwrap();
    for (i, c) in cs.iter().enumerate() {
        assert_eq!(find_pinned(cs, Some(&c.affinity_header)), Some(i));
    }
}

#[test]
fn planning_takes_a_parsed_body() {
    let mut state = State::new(&[("fast", &[("p", "m")])]);
    let body = read_body(br#"{"model":"fast","stream":true}"#).unwrap();
    let plan = plan_request(
        &body,
        None,
        &state.map,
        &state.tracker,
        &mut state.rr,
        double(3.0),
        &effective,
        &share,
        &error_rate,
    )
    .unwrap();
    assert_eq!(plan.alias, "fast");
    assert!(plan.streaming);
    assert_eq!(plan.candidate.provider_name, "p");
}

fn labels(sample: &Sample) -> Vec<&str> {
    sample.labels.iter().map(String::as_str).collect()
}

#[test]
fn error_series_are_declared_for_every_alias_and_candidate() {
    let state = State::new(&[("fast", &[("p", "m"), ("q", "n")]), ("slow", &[("p", "m")])]);
    let samples = zero_error_samples(&state.map);
    let series: Vec<Vec<&str>> = samples.iter().map(labels).collect();
    assert_eq!(
        series,
        [["fast", "p", "m"], ["fast", "q", "n"], ["slow", "p", "m"]]
    );
    for sample in &samples {
        assert_eq!(sample.metric, Metric::ErrorsTotal);
        assert_eq!(sample.update, Update::Declare);
    }
}

#[test]
fn successes_feed_latency_and_rate() {
    let mut state = State::new(&[("fast", &[("p", "m")])]);
    let c = &state.map.get("fast").unwrap()[0];
    let (counted, observed) = settle_response(
        &mut state.tracker,
        "fast",
        c,
        200,
        UpstreamLatency::Ttfc(42_000_000),
        &blend_latency,
        &blend_rate,
    );
    assert_eq!(counted.metric, Metric::RequestsTotal);
    assert_eq!(labels(&counted), ["fast", "p", "m", "200"]);
    assert_eq!(counted.update, Update::Increment);
    assert_eq!(observed.metric, Metric::TtfcSeconds);
    assert_eq!(labels(&observed), ["fast", "p", "m"]);
    assert_eq!(observed.update, Update::Observe(42_000_000));
    assert_eq!(state.tracker.stats(0).ewma_ms(LatencyMode::Streaming), 42);
    assert!(state.tracker.stats(0).is_cold(LatencyMode::NonStreaming));
}

#[test]
fn error_statuses_are_counted_but_leave_latency_alone() {
    let mut state = State::new(&[("fast", &[("p", "m")])]);
    let c = &state.map.get("fast").unwrap()[0];
    for status in [199, 300, 401, 503] {
        let before = value(state.tracker.stats(0).success_rate());
        let (counted, observed) = settle_response(
            &mut state.tracker,
            "fast",
            c,
            status,
            UpstreamLatency::Total(1_000_000),
            &blend_latency,
            &blend_rate,
        );
        assert_eq!(counted.labels[3], status.to_string());
        assert_eq!(observed.metric, Metric::LatencySeconds);
        assert!(state.tracker.stats(0).is_cold(LatencyMode::NonStreaming));
        assert!(value(state.tracker.stats(0).success_rate()) < before);
    }
}

#[test]
fn failures_answer_502() {
    let mut state = State::new(&[("fast", &[("p", "m")])]);
    let c = &state.map.get("fast").unwrap()[0];
    let (sample, reply) = settle_failure(
        &mut state.tracker,
        "fast",
        c,
        "connection refused",
        &blend_rate,
    );
    assert_eq!(sample.metric, Metric::ErrorsTotal);
    assert_eq!(labels(&sample), ["fast", "p", "m"]);
    assert_error(&reply, 502, "upstream error: connection refused");
    assert_eq!(value(state.tracker.stats(0).success_rate()), 0.7);
}

#[test]
fn responses_name_their_candidate_once() {
    let state = State::new(&[("fast", &[("p", "m")])]);
    let c = &state.map.get("fast").unwrap()[0];
    let header = |name: &str, value: &str| (name.to_string(), value.as_bytes().to_vec());
    let upstream = vec![
        header("x-session-affinity", "evil/one"),
        header("content-type", "application/json"),
        header("set-cookie", "a=b"),
        header("X-Sturnus-Provider", "evil"),
    ];
    assert_eq!(
        response_headers(&upstream, c),
        [
            header("content-type", "application/json"),
            header("x-sturnus-provider", "p"),
            header("x-session-affinity", "p/m"),
        ]
    );
}

#[test]
fn status_lists_each_candidate_once() {
    let mut state = State::new(&[
        ("fast", &[("a", "m"), ("b", "m")]),
        ("slow", &[("b", "m"), ("c", "m")]),
    ]);
    for (index, mode) in [(0, LatencyMode::Streaming), (1, LatencyMode::NonStreaming)] {
        state
            .tracker
            .record_success(index, mode, 5_000_000, &blend_latency, &blend_rate);
    }
    for _ in 0..2 {
        state.tracker.record_error(1, &blend_rate);
        state.tracker.record_error(2, &blend_rate);
    }
    let rows = status_rows(&state.map, &state.tracker, &error_rate);
    let names: Vec<&str> = rows.iter().map(|r| r.provider.as_str()).collect();
    assert_eq!(names, ["a", "b", "c"]);
    assert_eq!(rows[0].health, Health::Warm);
    assert_eq!(rows[0].streaming_ewma_ms, Some(5));
    assert_eq!(rows[0].nonstreaming_ewma_ms, None);
    assert_eq!(value(rows[0].error_rate), 0.0);
    assert_eq!(rows[1].health, Health::Degraded);
    assert_eq!(rows[1].nonstreaming_ewma_ms, Some(5));
    assert!((value(rows[1].error_rate) - 0.51).abs() < 1e-12);
    // Never measured: cold, however bad its error rate.
    assert_eq!(rows[2].health, Health::Cold);
    assert_eq!(rows[2].model, "m");
    let words: Vec<&str> = rows.iter().map(|r| r.health.as_str()).collect();
    assert_eq!(words, ["warm", "degraded", "cold"]);
}

#[test]
fn listeners_drain_after_a_shutdown() {
    let mut phase = Phase::Accepting;
    for (event, action) in [
        (Event::Connected, Action::Serve),
        (Event::AcceptFailed, Action::KeepAccepting),
        (Event::DrainTimedOut, Action::Ignore),
        (Event::ShutdownRequested, Action::BeginDrain),
        (Event::Connected, Action::Ignore),
        (Event::ShutdownRequested, Action::Ignore),
        (Event::AllDrained, Action::Finish),
        (Event::DrainTimedOut, Action::Ignore),
    ] {
        let (next, what) = phase.on(event);
        assert_eq!(what, action);
        phase = next;
    }
    assert_eq!(phase, Phase::Stopped);
    assert_eq!(
        Phase::Draining.on(Event::DrainTimedOut),
        (Phase::Stopped, Action::Abandon)
    );
}

#[test]
fn observability_outlives_the_drain() {
    assert!(!Phase::Accepting.is_shutting_down());
    assert!(Phase::Draining.is_shutting_down());
    assert!(Phase::Draining.keeps_observability());
    assert!(!Phase::Stopped.keeps_observability());
}

#[test]
fn closed_connections_are_not_worth_a_line() {
    assert!(!is_reportable("error: connection closed before message"));
    assert!(!is_reportable("connection closed"));
    assert!(is_reportable("connection close"));
    assert!(is_reportable(""));
}

#[test]
fn health_probes() {
    assert_eq!(health_url("127.0.0.1:4000"), "http://127.0.0.1:4000/health");
    assert!(is_healthy(200));
    assert!(!is_healthy(503));
}
