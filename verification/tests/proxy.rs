use serde_json::Value;
use sturnus::body::RawBody;
use sturnus::model_map::{ProviderKind, ResolvedCandidate};
use sturnus::proxy::{
    build_request_headers, build_upstream_url, first_chunk, needs_token, prepare_outbound,
    sanitize_response_headers, stream_error_event, CappedBody, OutboundBody, Relay, RelayFrame,
    UpstreamLatency,
};
use sturnus::tracker::LatencyMode;

fn outbound_bytes(out: &OutboundBody) -> Vec<u8> {
    out.data().unwrap_or_default().to_vec()
}

fn prepared_text(json: &str, real_model: &str, labels: Option<&Vec<(String, String)>>) -> String {
    let body = RawBody::from_slice(json.as_bytes()).unwrap();
    let out = prepare_outbound(body, real_model, labels);
    String::from_utf8(outbound_bytes(&out)).unwrap()
}

fn prepared(json: &str, real_model: &str, labels: Option<&Vec<(String, String)>>) -> Value {
    serde_json::from_str(&prepared_text(json, real_model, labels)).unwrap()
}

fn labels_of(items: &[(&str, &str)]) -> Vec<(String, String)> {
    items
        .iter()
        .map(|(k, v)| (k.to_string(), v.to_string()))
        .collect()
}

#[test]
fn stream_error_emits_sse_error_event() {
    // Simulate a stream: good chunk, then error, then another good chunk
    let source: Vec<Result<&str, String>> = vec![
        Ok("data: {\"chunk\":1}\n\n"),
        Err("connection reset".to_string()),
        Ok("data: {\"chunk\":2}\n\n"),
    ];
    let frames = Relay::relay_all(source);

    // Good chunk, error event; the stream terminates after the error.
    assert_eq!(
        frames,
        [
            RelayFrame::Chunk("data: {\"chunk\":1}\n\n"),
            RelayFrame::ErrorEvent
        ]
    );
    assert!(stream_error_event().contains("error"));
    assert_eq!(
        stream_error_event(),
        "data: {\"error\":{\"message\":\"upstream stream error\",\"type\":\"proxy_error\"}}\n\n"
    );
}

#[test]
fn streams_without_error_are_relayed_whole() {
    let source: Vec<Result<u8, ()>> = vec![Ok(1), Ok(2), Ok(3)];
    assert_eq!(
        Relay::relay_all(source),
        [
            RelayFrame::Chunk(1),
            RelayFrame::Chunk(2),
            RelayFrame::Chunk(3)
        ]
    );
    let nothing: Vec<Result<u8, ()>> = vec![];
    assert!(Relay::relay_all(nothing).is_empty());
}

#[test]
fn relays_step_by_step() {
    let mut relay = Relay::new();
    assert_eq!(
        relay.step::<_, ()>(Ok("a")),
        Some(RelayFrame::Chunk("a"))
    );
    assert_eq!(relay.step::<&str, _>(Err(())), Some(RelayFrame::ErrorEvent));
    assert_eq!(relay.step::<_, ()>(Ok("b")), None);
    assert_eq!(relay.step::<&str, _>(Err(())), None);
}

#[test]
fn prepare_body_replaces_model_alias() {
    let body = prepared(r#"{"model":"fast","temperature":0.7}"#, "gpt-4o-mini", None);
    assert_eq!(body["model"], Value::String("gpt-4o-mini".into()));
    assert_eq!(body["temperature"], Value::from(0.7));
}

#[test]
fn prepare_body_without_attribution_leaves_labels_untouched() {
    let body = prepared(
        r#"{"model":"x","labels":{"client":"v"}}"#,
        "real-model",
        None,
    );
    assert_eq!(body["labels"]["client"], "v");
}

#[test]
fn prepare_body_injects_labels_into_empty_body() {
    let labels = labels_of(&[("service", "foo")]);
    let body = prepared(r#"{"model":"x"}"#, "real-model", Some(&labels));
    assert_eq!(body["labels"]["service"], "foo");
}

#[test]
fn prepare_body_merges_with_existing_labels_sidecar_wins() {
    let labels = labels_of(&[("service", "sidecar-set"), ("owner", "team-a")]);
    let body = prepared(
        r#"{"model":"x","labels":{"tenant":"abc","service":"client-set"}}"#,
        "real-model",
        Some(&labels),
    );
    assert_eq!(body["labels"]["tenant"], "abc");
    assert_eq!(body["labels"]["service"], "sidecar-set");
    assert_eq!(body["labels"]["owner"], "team-a");
}

#[test]
fn prepare_body_overwrites_when_existing_labels_wrong_shape() {
    let labels = labels_of(&[("service", "foo")]);
    let body = prepared(
        r#"{"model":"x","labels":"not-an-object"}"#,
        "real-model",
        Some(&labels),
    );
    assert_eq!(body["labels"]["service"], "foo");
    assert!(body["labels"].is_object());
}

#[test]
fn labels_are_written_in_key_order() {
    let labels = labels_of(&[("b", "q\"uote"), ("\u{e9}", "1"), ("a", "2")]);
    assert_eq!(
        prepared_text(
            r#"{"labels":{"z":[1, 2.50],"b":0,"Z":null},"model":"x","k":1}"#,
            "m",
            Some(&labels)
        ),
        "{\"labels\":{\"Z\":null,\"a\":\"2\",\"b\":\"q\\\"uote\",\"z\":[1,2.5],\"\u{e9}\":\"1\"},\"model\":\"m\",\"k\":1}"
    );
    assert_eq!(
        prepared_text(r#"{"k":1}"#, "m", Some(&labels_of(&[]))),
        r#"{"k":1,"model":"m","labels":{}}"#
    );
}

#[test]
fn prepare_outbound_passes_other_fields_through_verbatim() {
    let body = RawBody::from_slice(
        br#"{"temperature":0.30,"model":"fast","big":18446744073709551616,"messages":[{"role":"user","content":"hi"}]}"#,
    )
    .unwrap();
    let bytes = outbound_bytes(&prepare_outbound(body, "gpt-4o-mini", None));
    // Key order, number formatting, and u64-overflowing precision survive.
    assert_eq!(
        std::str::from_utf8(&bytes).unwrap(),
        r#"{"temperature":0.30,"model":"gpt-4o-mini","big":18446744073709551616,"messages":[{"role":"user","content":"hi"}]}"#
    );
}

#[test]
fn prepare_outbound_serializes_large_bodies_losslessly() {
    let blob = "x".repeat(1024 * 1024);
    let input = format!(r#"{{"model":"fast","content":"{blob}"}}"#);
    let body = RawBody::from_slice(input.as_bytes()).unwrap();
    let out = prepare_outbound(body, "gpt-4o-mini", None);

    // The serialized length is reported exactly, so hyper sets Content-Length.
    let expected = format!(r#"{{"model":"gpt-4o-mini","content":"{blob}"}}"#);
    assert_eq!(out.remaining(), expected.len() as u64);
    assert_eq!(String::from_utf8(outbound_bytes(&out)).unwrap(), expected);
}

#[test]
fn formatting_is_forwarded_byte_for_byte() {
    assert_eq!(
        prepared_text(r#"{ "model": "fast", "n": 1 }"#, "gpt-4o-mini", None),
        r#"{ "model": "gpt-4o-mini", "n": 1 }"#
    );
    let labels = labels_of(&[("service", "foo")]);
    assert_eq!(
        prepared_text("{ \"model\" :\"x\" ,\n \"n\": 1 }\n", "m", Some(&labels)),
        "{ \"model\" :\"m\" ,\n \"n\": 1,\"labels\":{\"service\":\"foo\"} }\n"
    );
    assert_eq!(
        prepared_text("{ \"labels\": {\"a\" : 1} , \"model\": \"x\" }", "m", Some(&labels)),
        "{ \"labels\": {\"a\":1,\"service\":\"foo\"} , \"model\": \"m\" }"
    );
    assert_eq!(
        prepared_text("{ \"model\": \"x\" , \"labels\":7 }", "m", Some(&labels)),
        "{ \"model\": \"m\" , \"labels\":{\"service\":\"foo\"} }"
    );
    // A repeated key has the object written anew.
    assert_eq!(
        prepared_text(r#"{ "model": "a", "n": 1, "model": "b" }"#, "m", None),
        r#"{"model":"m","n":1}"#
    );
}

#[test]
fn outbound_bodies_read_back_as_the_fields_they_were_written_from() {
    let sent = prepared_text("{\"b\": [1 ,2], \"model\":\"x\", \"a\\n\":{}}", "real \"m\"", None);
    let again = RawBody::from_slice(sent.as_bytes()).unwrap();
    assert_eq!(again.get("b"), Some("[1 ,2]"));
    assert_eq!(again.get("a\n"), Some("{}"));
    assert_eq!(again.get_as::<String>("model").unwrap(), "real \"m\"");
    assert_eq!(again.to_bytes(), sent.as_bytes());
}

#[test]
fn attributed_bodies_read_back_too() {
    let labels = labels_of(&[("own", "\u{1f600}\t\"")]);
    let deep = format!("{}1{}", "[".repeat(100), "]".repeat(100));
    let input = format!(
        "{{\"d\": {deep},\"n\":-0.10e+5, \"labels\":{{\"c\": {{\"x\": [null, true]}}}},\"s\":\"\\ud83d\\ude00\"}}"
    );
    let sent = prepared_text(&input, "m", Some(&labels));
    let again = RawBody::from_slice(sent.as_bytes()).unwrap();
    assert_eq!(again.get("d"), Some(deep.as_str()));
    assert_eq!(again.get("n"), Some("-0.10e+5"));
    assert_eq!(again.get("s"), Some("\"\\ud83d\\ude00\""));
    assert_eq!(
        again.get("labels"),
        Some("{\"c\":{\"x\":[null,true]},\"own\":\"\u{1f600}\\t\\\"\"}")
    );
    assert_eq!(again.get_as::<String>("model").unwrap(), "m");
    assert_eq!(again.to_bytes(), sent.as_bytes());
}

#[test]
fn outbound_bodies_are_handed_out_once() {
    let mut out = OutboundBody::new(b"abc".to_vec());
    assert!(!out.is_end_stream());
    assert_eq!(out.remaining(), 3);
    assert_eq!(out.take_frame(), Some(b"abc".to_vec()));
    assert!(out.is_end_stream());
    assert_eq!(out.remaining(), 0);
    assert_eq!(out.take_frame(), None);
    assert!(out.data().is_none());
}

fn make_candidate(kind: ProviderKind, base_url: &str) -> ResolvedCandidate {
    ResolvedCandidate {
        provider_name: "test".into(),
        model: "gpt-4o".into(),
        base_url: base_url.into(),
        api_key: Some("test-key".into()),
        kind,
        stats_index: 0,
        provider_header: b"test".to_vec(),
        affinity_header: b"test/gpt-4o".to_vec(),
        attribution_labels: None,
    }
}

#[test]
fn url_default_deduplicates_v1() {
    let c = make_candidate(ProviderKind::ApiKey, "https://api.openai.com/v1");
    let url = build_upstream_url(&c, "/v1/chat/completions");
    assert_eq!(url, "https://api.openai.com/v1/chat/completions");
}

#[test]
fn url_vertex_strips_v1() {
    let c = make_candidate(
        ProviderKind::GcpAdc,
        "https://us-central1-aiplatform.googleapis.com/v1beta1/projects/p/locations/l/endpoints/openapi",
    );
    let url = build_upstream_url(&c, "/v1/chat/completions");
    assert_eq!(
        url,
        "https://us-central1-aiplatform.googleapis.com/v1beta1/projects/p/locations/l/endpoints/openapi/chat/completions"
    );
}

#[test]
fn url_azure_includes_deployment_and_version() {
    let c = make_candidate(
        ProviderKind::AzureOpenAi {
            api_version: "2024-10-21".into(),
        },
        "https://my-resource.openai.azure.com/openai",
    );
    let url = build_upstream_url(&c, "/v1/chat/completions");
    assert_eq!(
        url,
        "https://my-resource.openai.azure.com/openai/deployments/gpt-4o/chat/completions?api-version=2024-10-21"
    );
}

#[test]
fn url_trims_slashes_and_strips_one_prefix() {
    let c = make_candidate(ProviderKind::ApiKey, "http://x///");
    assert_eq!(build_upstream_url(&c, "/v1/v1/a"), "http://x/v1/a");
    assert_eq!(build_upstream_url(&c, "/v2/a"), "http://x/v2/a");
    assert_eq!(build_upstream_url(&c, "/v1"), "http://x");
    assert_eq!(build_upstream_url(&c, "/v1beta/a"), "http://xbeta/a");
}

fn headers_of(c: &ResolvedCandidate, token: Option<&str>) -> Option<Vec<(&'static str, String)>> {
    build_request_headers(c, token)
}

#[test]
fn each_kind_of_provider_is_authorized_its_own_way() {
    let json = ("content-type", "application/json".to_string());
    let mut c = make_candidate(ProviderKind::ApiKey, "http://x");
    assert_eq!(
        headers_of(&c, None).unwrap(),
        [
            json.clone(),
            ("authorization", "Bearer test-key".to_string())
        ]
    );
    c.kind = ProviderKind::AzureOpenAi {
        api_version: "v".into(),
    };
    assert_eq!(
        headers_of(&c, None).unwrap(),
        [json.clone(), ("api-key", "test-key".to_string())]
    );
    c.kind = ProviderKind::Anthropic {
        version: "2023-06-01".into(),
    };
    assert_eq!(
        headers_of(&c, None).unwrap(),
        [
            json.clone(),
            ("x-api-key", "test-key".to_string()),
            ("anthropic-version", "2023-06-01".to_string())
        ]
    );
    assert!(!needs_token(&c));
    c.api_key = None;
    assert_eq!(
        headers_of(&c, None).unwrap(),
        [
            json.clone(),
            ("anthropic-version", "2023-06-01".to_string())
        ]
    );
    c.kind = ProviderKind::ApiKey;
    assert_eq!(headers_of(&c, Some("unused")).unwrap(), [json.clone()]);
    c.kind = ProviderKind::GcpAdc;
    assert!(needs_token(&c));
    assert!(headers_of(&c, None).is_none());
    assert_eq!(
        headers_of(&c, Some("tok")).unwrap(),
        [json, ("authorization", "Bearer tok".to_string())]
    );
}

#[test]
fn sanitize_headers_strips_unsafe_and_preserves_rest() {
    let header = |name: &str, value: &str| (name.to_string(), value.as_bytes().to_vec());
    let upstream = vec![
        header("content-type", "application/json"),
        header("transfer-encoding", "chunked"),
        header("connection", "keep-alive"),
        header("alt-svc", "h3=\":443\""),
        header("set-cookie", "__cf_bm=abc"),
        header("set-cookie", "__cfduid=def"),
        header("vary", "accept"),
        header("vary", "origin"),
    ];

    let sanitized = sanitize_response_headers(&upstream);

    for stripped in ["set-cookie", "transfer-encoding", "connection", "alt-svc"] {
        assert!(
            !sanitized.iter().any(|(k, _)| k == stripped),
            "{stripped} should be stripped"
        );
    }
    let content_type = sanitized.iter().find(|(k, _)| k == "content-type");
    assert_eq!(content_type.unwrap().1, b"application/json");
    assert_eq!(sanitized.iter().filter(|(k, _)| k == "vary").count(), 2);
    assert_eq!(
        sanitized,
        [
            header("content-type", "application/json"),
            header("vary", "accept"),
            header("vary", "origin"),
        ]
    );
}

#[test]
fn hop_by_hop_headers_are_stripped_whatever_their_case() {
    for name in [
        "connection",
        "transfer-encoding",
        "TE",
        "trailer",
        "Upgrade",
        "proxy-authenticate",
        "proxy-authorization",
        "set-cookie",
        "Alt-Svc",
        "Keep-Alive",
    ] {
        let upstream = vec![(name.to_string(), vec![1])];
        assert!(sanitize_response_headers(&upstream).is_empty(), "{name}");
    }
    let upstream = vec![("tea".to_string(), vec![1]), ("x".to_string(), vec![])];
    assert_eq!(sanitize_response_headers(&upstream), upstream);
}

#[test]
fn responses_over_the_cap_are_refused() {
    assert_eq!(
        CappedBody::new(10, Some(11)).unwrap_err(),
        "upstream response exceeds the 10 byte cap"
    );
    let mut body = CappedBody::new(10, Some(10)).unwrap();
    body.push(b"01234").unwrap();
    body.push(b"").unwrap();
    assert_eq!(
        body.push(b"567890").unwrap_err(),
        "upstream response exceeds the 10 byte cap"
    );
    body.push(b"56789").unwrap();
    assert_eq!(body.into_bytes(), b"0123456789");
    let mut none = CappedBody::new(0, None).unwrap();
    assert!(none.push(b"x").is_err());
    assert!(none.into_bytes().is_empty());
}

#[test]
fn first_chunks() {
    assert_eq!(first_chunk::<_, ()>(Some(Ok("a")), ""), Ok("a"));
    assert_eq!(first_chunk(Some(Err("e")), ""), Err("e"));
    assert_eq!(first_chunk::<_, ()>(None, ""), Ok(""));
}

#[test]
fn latencies_know_what_was_measured() {
    let ttfc = UpstreamLatency::measured(true, 5);
    assert_eq!(ttfc, UpstreamLatency::Ttfc(5));
    assert_eq!(ttfc.mode(), LatencyMode::Streaming);
    let total = UpstreamLatency::measured(false, 7);
    assert_eq!(total, UpstreamLatency::Total(7));
    assert_eq!(total.mode(), LatencyMode::NonStreaming);
    assert_eq!(total.nanos(), 7);
}
