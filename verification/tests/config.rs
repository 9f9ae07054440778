use sturnus::config::{
    cgroup_memory_limit_from, default_listen, parse_cgroup_v1, parse_cgroup_v2, secret_entry,
    secret_value, AnthropicConfig, AzureOpenAiConfig, Config, ConfigError, GoogleAiConfig,
    ModelCandidate, ProviderConfig, RoutingConfig, SecretEntry, VertexAiConfig,
};
use sturnus::double::Double;
use sturnus::model_map::{ModelMap, ModelMapError, ProviderKind};
use sturnus::tracker::{LatencyMode, Tracker};
use toml::{Table, Value};

fn text(table: &Table, key: &str) -> Option<String> {
    table.get(key).and_then(Value::as_str).map(String::from)
}

fn section<'a>(table: &'a Table, key: &str) -> Option<&'a Table> {
    table.get(key).and_then(Value::as_table)
}

fn number(table: &Table, key: &str, default: Double) -> Double {
    match table.get(key) {
        Some(Value::Float(x)) => Double::from_bits(x.to_bits()),
        Some(Value::Integer(x)) => Double::from_bits((*x as f64).to_bits()),
        _ => default,
    }
}

fn count(table: &Table, key: &str, default: u64) -> u64 {
    table
        .get(key)
        .and_then(Value::as_integer)
        .map_or(default, |n| n as u64)
}

fn provider_from(table: &Table) -> ProviderConfig {
    ProviderConfig {
        base_url: text(table, "base_url"),
        api_key: text(table, "api_key"),
        vertex_ai: section(table, "vertex_ai").map(|v| VertexAiConfig {
            project_id: text(v, "project_id").unwrap(),
            location: text(v, "location").unwrap(),
            attribution: v
                .get("attribution")
                .and_then(Value::as_bool)
                .unwrap_or(false),
        }),
        azure_openai: section(table, "azure_openai").map(|az| AzureOpenAiConfig {
            resource_name: text(az, "resource_name").unwrap(),
            api_version: text(az, "api_version").unwrap(),
        }),
        google_ai: section(table, "google_ai").map(|g| GoogleAiConfig {
            api_version: text(g, "api_version").unwrap_or_else(GoogleAiConfig::default_api_version),
        }),
        anthropic: section(table, "anthropic").map(|a| AnthropicConfig {
            version: text(a, "version").unwrap_or_else(AnthropicConfig::default_version),
        }),
    }
}

fn config_from(toml_str: &str) -> Config {
    let table: Table = toml_str.parse().unwrap();
    let defaults = RoutingConfig::default();
    let empty = Table::new();
    let routing = section(&table, "routing").unwrap_or(&empty);
    Config {
        listen: text(&table, "listen").unwrap_or_else(default_listen),
        metrics_listen: text(&table, "metrics_listen"),
        provider: section(&table, "provider")
            .unwrap()
            .iter()
            .map(|(name, p)| (name.clone(), provider_from(p.as_table().unwrap())))
            .collect(),
        model: section(&table, "model")
            .unwrap()
            .iter()
            .map(|(alias, list)| {
                let candidates = list.as_array().unwrap();
                let candidates = candidates
                    .iter()
                    .map(|c| {
                        let c = c.as_table().unwrap();
                        ModelCandidate {
                            provider: text(c, "provider").unwrap(),
                            model: text(c, "model").unwrap(),
                        }
                    })
                    .collect();
                (alias.clone(), candidates)
            })
            .collect(),
        routing: RoutingConfig {
            ewma_alpha: number(routing, "ewma_alpha", defaults.ewma_alpha),
            exploit_k: number(routing, "exploit_k", defaults.exploit_k),
            error_threshold: number(routing, "error_threshold", defaults.error_threshold),
            connect_timeout_secs: count(
                routing,
                "connect_timeout_secs",
                defaults.connect_timeout_secs,
            ),
            read_timeout_secs: count(routing, "read_timeout_secs", defaults.read_timeout_secs),
            max_body_bytes: count(routing, "max_body_bytes", defaults.max_body_bytes as u64)
                as usize,
            max_buffered_bytes: routing
                .get("max_buffered_bytes")
                .and_then(Value::as_integer)
                .map(|n| n as usize),
            shutdown_timeout_secs: count(
                routing,
                "shutdown_timeout_secs",
                defaults.shutdown_timeout_secs,
            ),
        },
        attribution: section(&table, "attribution")
            .unwrap_or(&empty)
            .iter()
            .map(|(k, v)| (k.clone(), v.as_str().unwrap().to_string()))
            .collect(),
    }
}

fn provider<'a>(config: &'a Config, name: &str) -> &'a ProviderConfig {
    let index = config.provider_index(name).unwrap();
    &config.provider[index].1
}

fn double(x: f64) -> Double {
    Double::from_bits(x.to_bits())
}

fn tracker() -> Tracker {
    Tracker::new(double(0.3), double(0.5))
}

#[test]
fn vertex_ai_derives_base_url() {
    let provider = ProviderConfig {
        vertex_ai: Some(VertexAiConfig {
            project_id: "my-project".into(),
            location: "us-central1".into(),
            attribution: false,
        }),
        ..Default::default()
    };
    let url = provider.resolved_base_url().unwrap();
    assert!(url.contains("us-central1-aiplatform.googleapis.com"));
    assert!(url.contains("my-project"));
    assert!(url.contains("us-central1"));
    assert_eq!(
        url,
        "https://us-central1-aiplatform.googleapis.com/v1beta1/projects/my-project/locations/us-central1/endpoints/openapi"
    );
}

#[test]
fn vertex_ai_global_location_omits_region_prefix() {
    let provider = ProviderConfig {
        vertex_ai: Some(VertexAiConfig {
            project_id: "my-project".into(),
            location: "global".into(),
            attribution: false,
        }),
        ..Default::default()
    };
    let url = provider.resolved_base_url().unwrap();
    assert_eq!(
        url,
        "https://aiplatform.googleapis.com/v1beta1/projects/my-project/locations/global/endpoints/openapi"
    );
    assert!(!url.contains("global-aiplatform"));
}

#[test]
fn vertex_ai_defaults_to_gcp_adc_auth() {
    let provider = ProviderConfig {
        vertex_ai: Some(VertexAiConfig {
            project_id: "p".into(),
            location: "l".into(),
            attribution: false,
        }),
        ..Default::default()
    };
    assert_eq!(provider.resolved_kind(), ProviderKind::GcpAdc);
}

#[test]
fn vertex_ai_with_api_key_uses_api_key_auth() {
    let provider = ProviderConfig {
        api_key: Some("my-key".into()),
        vertex_ai: Some(VertexAiConfig {
            project_id: "p".into(),
            location: "l".into(),
            attribution: false,
        }),
        ..Default::default()
    };
    assert_eq!(provider.resolved_kind(), ProviderKind::ApiKey);
    // base_url should still be derived from vertex_ai config
    let url = provider.resolved_base_url().unwrap();
    assert!(url.contains("aiplatform.googleapis.com"));
}

#[test]
fn api_key_provider_defaults_to_api_key_kind() {
    let provider = ProviderConfig {
        base_url: Some("https://api.openai.com/v1".into()),
        api_key: Some("sk-test".into()),
        ..Default::default()
    };
    assert_eq!(provider.resolved_kind(), ProviderKind::ApiKey);
    assert_eq!(
        provider.resolved_base_url().unwrap(),
        "https://api.openai.com/v1"
    );
}

#[test]
fn timeout_defaults_when_omitted() {
    let toml_str = r#"
[provider.openai]
base_url = "https://api.openai.com/v1"
api_key = "sk-test"

[model]
fast = [{ provider = "openai", model = "gpt-4o-mini" }]
"#;
    let config = config_from(toml_str);
    assert_eq!(config.routing.connect_timeout_secs, 10);
    assert_eq!(config.routing.read_timeout_secs, 60);
}

#[test]
fn exploit_k_rejects_negative() {
    let toml_str = r#"
[provider.openai]
base_url = "https://api.openai.com/v1"
api_key = "sk-test"

[model]
fast = [{ provider = "openai", model = "gpt-4o-mini" }]

[routing]
exploit_k = -1.0
"#;
    let config = config_from(toml_str);
    assert!(config.validate().is_err());
}

#[test]
fn timeout_explicit_values_override_defaults() {
    let toml_str = r#"
[provider.openai]
base_url = "https://api.openai.com/v1"
api_key = "sk-test"

[model]
fast = [{ provider = "openai", model = "gpt-4o-mini" }]

[routing]
connect_timeout_secs = 5
read_timeout_secs = 120
"#;
    let config = config_from(toml_str);
    assert_eq!(config.routing.connect_timeout_secs, 5);
    assert_eq!(config.routing.read_timeout_secs, 120);
}

#[test]
fn azure_openai_derives_base_url() {
    let provider = ProviderConfig {
        api_key: Some("key".into()),
        azure_openai: Some(AzureOpenAiConfig {
            resource_name: "my-resource".into(),
            api_version: "2024-10-21".into(),
        }),
        ..Default::default()
    };
    let url = provider.resolved_base_url().unwrap();
    assert_eq!(url, "https://my-resource.openai.azure.com/openai");
}

#[test]
fn azure_openai_resolves_kind() {
    let provider = ProviderConfig {
        api_key: Some("key".into()),
        azure_openai: Some(AzureOpenAiConfig {
            resource_name: "r".into(),
            api_version: "v".into(),
        }),
        ..Default::default()
    };
    assert!(matches!(
        provider.resolved_kind(),
        ProviderKind::AzureOpenAi { .. }
    ));
}

#[test]
fn google_ai_shorthand_derives_url_and_kind() {
    let toml_str = r#"
[provider.gemini]
api_key = "key"
google_ai = {}

[model]
test = [{ provider = "gemini", model = "gemini-2.5-flash" }]
"#;
    let config = config_from(toml_str);
    assert!(config.validate().is_ok());
    let p = provider(&config, "gemini");
    assert_eq!(
        p.resolved_base_url().unwrap(),
        "https://generativelanguage.googleapis.com/v1beta/openai"
    );
    assert_eq!(p.resolved_kind(), ProviderKind::ApiKey);
}

#[test]
fn anthropic_shorthand_derives_url_and_kind() {
    let toml_str = r#"
[provider.anthropic]
api_key = "key"
anthropic = {}

[model]
test = [{ provider = "anthropic", model = "sonnet-4-20250514" }]
"#;
    let config = config_from(toml_str);
    assert!(config.validate().is_ok());
    let p = provider(&config, "anthropic");
    assert_eq!(
        p.resolved_base_url().unwrap(),
        "https://api.anthropic.com/v1"
    );
    assert!(matches!(p.resolved_kind(), ProviderKind::Anthropic { .. }));
    assert_eq!(
        p.resolved_kind(),
        ProviderKind::Anthropic {
            version: "2023-06-01".into()
        }
    );
}

#[test]
fn attribution_opt_in_requires_non_empty_attribution_map() {
    let toml_str = r#"
[provider.vertex]
api_key = "k"
vertex_ai = { project_id = "p", location = "l", attribution = true }

[model]
test = [{ provider = "vertex", model = "google/gemini-2.5-flash" }]
"#;
    let config = config_from(toml_str);
    assert!(config.validate().is_err());
    let e = config.validate().unwrap_err();
    assert!(matches!(e, ConfigError::EmptyAttribution));
    assert_eq!(
        e.message(""),
        "at least one provider has vertex_ai.attribution = true but the top-level [attribution] map is empty"
    );
}

#[test]
fn attribution_opt_in_with_attribution_map_validates() {
    let toml_str = r#"
[attribution]
service = "my-service"
owner = "team-x"

[provider.vertex]
api_key = "k"
vertex_ai = { project_id = "p", location = "l", attribution = true }

[model]
test = [{ provider = "vertex", model = "google/gemini-2.5-flash" }]
"#;
    let config = config_from(toml_str);
    assert!(config.validate().is_ok());
    let service = config.attribution.iter().find(|(k, _)| k == "service");
    assert_eq!(service.unwrap().1, "my-service");
    assert!(
        provider(&config, "vertex")
            .vertex_ai
            .as_ref()
            .unwrap()
            .attribution
    );
}

#[test]
fn attribution_defaults_off_for_vertex() {
    let toml_str = r#"
[provider.vertex]
api_key = "k"
vertex_ai = { project_id = "p", location = "l" }

[model]
test = [{ provider = "vertex", model = "google/gemini-2.5-flash" }]
"#;
    let config = config_from(toml_str);
    assert!(config.validate().is_ok());
    assert!(
        !provider(&config, "vertex")
            .vertex_ai
            .as_ref()
            .unwrap()
            .attribution
    );
}

#[test]
fn attribution_field_does_not_exist_on_non_vertex_providers() {
    // `attribution` lives inside the vertex_ai shorthand, so non-Vertex
    // providers can't set it: the types make it Vertex-only.
    let toml_str = r#"
[provider.openai]
base_url = "https://api.openai.com/v1"
api_key = "k"

[model]
test = [{ provider = "openai", model = "gpt-4o-mini" }]
"#;
    let config = config_from(toml_str);
    assert!(provider(&config, "openai").vertex_ai.is_none());
}

#[test]
fn rejects_multiple_provider_shorthands() {
    let toml_str = r#"
[provider.bad]
api_key = "key"
google_ai = {}
anthropic = {}

[model]
test = [{ provider = "bad", model = "test" }]
"#;
    let config = config_from(toml_str);
    assert!(config.validate().is_err());
    assert_eq!(
        config.validate().unwrap_err().message(""),
        "provider 'bad' has multiple provider shorthands; use only one of vertex_ai, azure_openai, google_ai, or anthropic"
    );
}

#[test]
fn cgroup_parsing_handles_limits_and_unlimited_sentinels() {
    assert_eq!(parse_cgroup_v2("268435456\n"), Some(268435456));
    assert_eq!(parse_cgroup_v2("max\n"), None); // v2 unlimited
    assert_eq!(parse_cgroup_v1("268435456\n"), Some(268435456));
    assert_eq!(parse_cgroup_v1("9223372036854771712"), None); // v1 page-rounded i64::MAX
}

#[test]
fn cgroup_prefers_v2_over_v1() {
    assert_eq!(
        cgroup_memory_limit_from(Some("111\n"), Some("999\n")),
        Some(111)
    );
    // v2 absent: fall back to v1.
    assert_eq!(cgroup_memory_limit_from(None, Some("999\n")), Some(999));
}

#[test]
fn cgroup_v2_is_final_once_it_can_be_read() {
    assert_eq!(cgroup_memory_limit_from(Some("max\n"), Some("999\n")), None);
    assert_eq!(cgroup_memory_limit_from(None, None), None);
}

#[test]
fn cgroup_v1_threshold_is_exclusive() {
    assert_eq!(parse_cgroup_v1("1152921504606846975"), Some((1 << 60) - 1));
    assert_eq!(parse_cgroup_v1("1152921504606846976"), None);
    assert_eq!(parse_cgroup_v2("1152921504606846976"), Some(1 << 60));
}

#[test]
fn secret_files_become_variables() {
    assert_eq!(secret_entry(true, false, Some("KEY")), SecretEntry::Load);
    assert_eq!(secret_entry(false, true, Some("KEY")), SecretEntry::Load);
    assert_eq!(secret_value("secret-a"), "secret-a");
    assert_eq!(secret_value("secret\n"), "secret");
    assert_eq!(secret_value("two\nlines\n\n"), "two\nlines");
}

#[test]
fn hidden_secrets_and_subdirectories_are_skipped() {
    assert_eq!(
        secret_entry(true, false, Some(".hidden")),
        SecretEntry::Skip
    );
    assert_eq!(secret_entry(false, false, Some("dir")), SecretEntry::Skip);
    assert_eq!(secret_entry(false, false, None), SecretEntry::Skip);
    assert_eq!(secret_entry(true, false, None), SecretEntry::NameNotUtf8);
}

fn openai(extra: &str) -> Config {
    config_from(&format!(
        r#"
[provider.openai]
base_url = "https://api.openai.com/v1"

[model]
fast = [{{ provider = "openai", model = "gpt-4o-mini" }}]

{extra}
"#
    ))
}

#[test]
fn rates_outside_the_unit_interval_are_rejected() {
    for bad in ["-0.1", "1.0000000000000002", "nan", "inf", "-inf"] {
        let config = openai(&format!("[routing]\newma_alpha = {bad}"));
        let e = config.validate().unwrap_err();
        assert!(matches!(e, ConfigError::EwmaAlpha { .. }), "{bad}");
        assert_eq!(
            e.message(bad),
            format!("ewma_alpha must be between 0.0 and 1.0, got {bad}")
        );
        let config = openai(&format!("[routing]\nerror_threshold = {bad}"));
        let e = config.validate().unwrap_err();
        assert!(matches!(e, ConfigError::ErrorThreshold { .. }), "{bad}");
        assert_eq!(
            e.message(bad),
            format!("error_threshold must be between 0.0 and 1.0, got {bad}")
        );
    }
    for good in ["0.0", "-0.0", "0.3", "1.0"] {
        assert!(openai(&format!("[routing]\newma_alpha = {good}"))
            .validate()
            .is_ok());
        assert!(openai(&format!("[routing]\nerror_threshold = {good}"))
            .validate()
            .is_ok());
    }
}

#[test]
fn exploit_k_must_be_finite_and_not_negative() {
    for bad in ["-1e-300", "nan", "inf", "-inf"] {
        let e = openai(&format!("[routing]\nexploit_k = {bad}"))
            .validate()
            .unwrap_err();
        assert!(matches!(e, ConfigError::ExploitK { .. }), "{bad}");
        assert_eq!(
            e.message("x"),
            "exploit_k must be a finite value >= 0.0, got x"
        );
    }
    for good in ["0.0", "-0.0", "3.0", "1e308"] {
        assert!(openai(&format!("[routing]\nexploit_k = {good}"))
            .validate()
            .is_ok());
    }
}

#[test]
fn providers_need_an_http_base_url() {
    let config = config_from("[provider.p]\napi_key = \"k\"\n[model]\n");
    assert_eq!(
        config.validate().unwrap_err().message(""),
        "provider 'p' must have base_url or a provider shorthand configured"
    );
    let config = config_from("[provider.p]\nbase_url = \"ftp://x\"\n[model]\n");
    assert_eq!(
        config.validate().unwrap_err().message(""),
        "provider 'p' has invalid base_url (must start with http:// or https://): ftp://x"
    );
    let config = config_from("[provider.p]\nbase_url = \"http://x\"\n[model]\n");
    assert!(config.validate().is_ok());
}

#[test]
fn aliases_must_name_configured_providers() {
    let config = config_from(
        r#"
[provider.openai]
base_url = "https://api.openai.com/v1"

[model]
fast = [{ provider = "openai", model = "a" }, { provider = "groq", model = "b" }]
"#,
    );
    let e = config.validate().unwrap_err();
    assert_eq!(
        e.message(""),
        "model alias 'fast' references unknown provider 'groq'"
    );
    let e = ModelMap::from_config(&config, &mut tracker()).unwrap_err();
    assert_eq!(
        e.message(),
        "alias 'fast' references undefined provider 'groq'"
    );
}

#[test]
fn routing_defaults() {
    let routing = RoutingConfig::default();
    assert_eq!(routing.ewma_alpha, double(0.3));
    assert_eq!(routing.exploit_k, double(3.0));
    assert_eq!(routing.error_threshold, double(0.5));
    assert_eq!(routing.max_body_bytes, 32 * 1024 * 1024);
    assert_eq!(routing.max_buffered_bytes, None);
    assert_eq!(routing.shutdown_timeout_secs, 30);
    assert_eq!(default_listen(), "127.0.0.1:4000");
}

#[test]
fn buffer_budget_comes_from_config_then_cgroup_then_body_cap() {
    let mut routing = RoutingConfig::default();
    assert_eq!(
        routing.buffer_budget_bytes(None),
        (128 * 1024 * 1024, "4x max_body_bytes")
    );
    assert_eq!(
        routing.buffer_budget_bytes(Some(268435457)),
        (134217728, "cgroup")
    );
    routing.max_body_bytes = usize::MAX;
    assert_eq!(
        routing.buffer_budget_bytes(None),
        (usize::MAX, "4x max_body_bytes")
    );
    routing.max_buffered_bytes = Some(7);
    assert_eq!(
        routing.buffer_budget_bytes(Some(1)),
        (7, "max_buffered_bytes")
    );
}

#[test]
fn application_credentials_are_needed_by_vertex_without_a_key() {
    assert!(!openai("").needs_gcp());
    let config = config_from(
        "[provider.v]\nvertex_ai = { project_id = \"p\", location = \"l\" }\n[model]\n",
    );
    assert!(config.needs_gcp());
}

#[test]
fn shared_provider_model_across_aliases_dedupes_to_one_stats_index() {
    let toml_str = r#"
[provider.openai]
base_url = "https://api.openai.com/v1"
api_key = "sk-test"

[model]
fast = [{ provider = "openai", model = "gpt-4o-mini" }]
cheap = [{ provider = "openai", model = "gpt-4o-mini" }]
"#;
    let config = config_from(toml_str);
    let mut tracker = tracker();
    let map = ModelMap::from_config(&config, &mut tracker).unwrap();

    let fast_idx = map.get("fast").unwrap()[0].stats_index;
    let cheap_idx = map.get("cheap").unwrap()[0].stats_index;
    assert_eq!(fast_idx, cheap_idx);
    assert_eq!(tracker.len(), 1);
    assert!(tracker.stats(fast_idx).is_cold(LatencyMode::Streaming));
}

#[test]
fn attribution_propagates_only_to_opt_in_candidates() {
    let toml_str = r#"
[attribution]
service = "my-service"
owner = "team-x"

[provider.vertex-attr]
api_key = "k"
vertex_ai = { project_id = "p", location = "l", attribution = true }

[provider.vertex-no-attr]
api_key = "k"
vertex_ai = { project_id = "p", location = "l" }

[model]
attr   = [{ provider = "vertex-attr",    model = "google/gemini-2.5-flash" }]
noattr = [{ provider = "vertex-no-attr", model = "google/gemini-2.5-flash" }]
"#;
    let config = config_from(toml_str);
    config.validate().unwrap();
    let mut tracker = tracker();
    let map = ModelMap::from_config(&config, &mut tracker).unwrap();

    let attr = &map.get("attr").unwrap()[0];
    let labels = attr
        .attribution_labels
        .as_ref()
        .expect("opt-in candidate should have labels");
    let value = |key: &str| &labels.iter().find(|(k, _)| k == key).unwrap().1;
    assert_eq!(value("service"), "my-service");
    assert_eq!(value("owner"), "team-x");
    assert_eq!(labels.len(), 2);

    let noattr = &map.get("noattr").unwrap()[0];
    assert!(noattr.attribution_labels.is_none());
}

#[test]
fn attribution_labels_none_when_attribution_map_empty() {
    let toml_str = r#"
[provider.vertex]
api_key = "k"
vertex_ai = { project_id = "p", location = "l" }

[model]
test = [{ provider = "vertex", model = "google/gemini-2.5-flash" }]
"#;
    let config = config_from(toml_str);
    let mut tracker = tracker();
    let map = ModelMap::from_config(&config, &mut tracker).unwrap();
    assert!(map.get("test").unwrap()[0].attribution_labels.is_none());
}

#[test]
fn distinct_provider_model_pairs_get_distinct_indices() {
    let toml_str = r#"
[provider.openai]
base_url = "https://api.openai.com/v1"
api_key = "sk-test"

[model]
fast = [
    { provider = "openai", model = "gpt-4o-mini" },
    { provider = "openai", model = "gpt-4o" },
]
"#;
    let config = config_from(toml_str);
    let mut tracker = tracker();
    let map = ModelMap::from_config(&config, &mut tracker).unwrap();

    let candidates = map.get("fast").unwrap();
    assert_ne!(candidates[0].stats_index, candidates[1].stats_index);
    assert_eq!(tracker.len(), 2);
}

#[test]
fn candidates_carry_everything_a_request_needs() {
    let config = config_from(
        r#"
[provider.az]
api_key = "key"
azure_openai = { resource_name = "r", api_version = "v1" }

[model]
fast = [{ provider = "az", model = "gpt-4o" }]
"#,
    );
    let mut tracker = tracker();
    tracker.register();
    let map = ModelMap::from_config(&config, &mut tracker).unwrap();
    let c = &map.get("fast").unwrap()[0];
    assert_eq!(c.provider_name, "az");
    assert_eq!(c.model, "gpt-4o");
    assert_eq!(c.base_url, "https://r.openai.azure.com/openai");
    assert_eq!(c.api_key.as_deref(), Some("key"));
    assert_eq!(
        c.kind,
        ProviderKind::AzureOpenAi {
            api_version: "v1".into()
        }
    );
    assert_eq!(c.stats_index, 1);
    assert_eq!(c.provider_header, b"az");
    assert_eq!(c.affinity_header, b"az/gpt-4o");
    assert!(map.get("slow").is_none());
}

#[test]
fn names_that_fit_no_header_are_rejected() {
    let config = config_from(
        "[provider.\"a\\nb\"]\nbase_url = \"http://x\"\n[model]\nm = [{ provider = \"a\\nb\", model = \"x\" }]\n",
    );
    assert!(config.validate().is_ok());
    let e = ModelMap::from_config(&config, &mut tracker()).unwrap_err();
    assert!(matches!(e, ModelMapError::InvalidProviderName { .. }));
    assert_eq!(e.message(), "invalid provider name 'a\nb'");

    let config = config_from(
        "[provider.p]\nbase_url = \"http://x\"\n[model]\nm = [{ provider = \"p\", model = \"x\\u007F\" }]\n",
    );
    let e = ModelMap::from_config(&config, &mut tracker()).unwrap_err();
    assert!(matches!(e, ModelMapError::InvalidModelName { .. }));
    assert_eq!(
        e.message(),
        "invalid model name 'x\u{7f}' for provider 'p'"
    );

    // Beyond ASCII is fine, and so is a tab.
    let config = config_from(
        "[provider.p]\nbase_url = \"http://x\"\n[model]\nm = [{ provider = \"p\", model = \"\u{e9}\\t\" }]\n",
    );
    let map = ModelMap::from_config(&config, &mut tracker()).unwrap();
    assert_eq!(
        map.get("m").unwrap()[0].affinity_header,
        "p/\u{e9}\t".as_bytes()
    );
}

#[test]
fn unresolvable_base_urls_are_reported() {
    let config = config_from(
        "[provider.p]\napi_key = \"k\"\n[model]\nm = [{ provider = \"p\", model = \"x\" }]\n",
    );
    let e = ModelMap::from_config(&config, &mut tracker()).unwrap_err();
    assert_eq!(e.message(), "provider 'p' has no base_url configured");
}

#[test]
fn aliases_and_candidates_are_listed_in_order() {
    let config = config_from(
        r#"
[provider.p]
base_url = "http://x"

[model]
a = [{ provider = "p", model = "1" }, { provider = "p", model = "2" }]
b = [{ provider = "p", model = "2" }]
c = []
"#,
    );
    let map = ModelMap::from_config(&config, &mut tracker()).unwrap();
    assert_eq!(map.alias_names(), ["a", "b", "c"]);
    let listed: Vec<(&str, &str)> = map
        .iter()
        .into_iter()
        .map(|(alias, c)| (alias, c.model.as_str()))
        .collect();
    assert_eq!(listed, [("a", "1"), ("a", "2"), ("b", "2")]);
    assert!(map.get("c").unwrap().is_empty());
}
