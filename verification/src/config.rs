//! The configuration: its shape, its defaults, and what makes it valid.
use crate::double::Double;
use crate::model_map::ProviderKind;
use crate::router::EXPLOIT_K;
use crate::text;
use crate::text::{parse_unsigned, same, starts_with, trim, trim_end_matches};
use vstd::prelude::*;

verus! {

/// Everything the sidecar reads at startup. The tables of the file are lists
/// of named entries.
#[derive(Debug)]
pub struct Config {
    /// Address the proxy listens on.
    pub listen: String,
    /// Address of a second listener that serves only the observability
    /// endpoints, if one is wanted.
    pub metrics_listen: Option<String>,
    pub provider: Vec<(String, ProviderConfig)>,
    pub model: Vec<(String, Vec<ModelCandidate>)>,
    pub routing: RoutingConfig,
    /// Labels merged into outbound bodies as `labels` for opt-in Vertex
    /// providers. Typically deployment identity from env vars.
    pub attribution: Vec<(String, String)>,
}

/// Where a provider is reached and how requests to it are authorized.
#[derive(Debug)]
pub struct ProviderConfig {
    /// Base URL for the provider API. Optional if a provider shorthand is set.
    pub base_url: Option<String>,
    pub api_key: Option<String>,
    /// Vertex AI shorthand: derives the base URL from project and location.
    pub vertex_ai: Option<VertexAiConfig>,
    /// Azure OpenAI shorthand: derives the base URL from the resource name.
    pub azure_openai: Option<AzureOpenAiConfig>,
    /// Google AI Studio shorthand: derives the base URL.
    pub google_ai: Option<GoogleAiConfig>,
    /// Anthropic shorthand: derives the base URL, uses the x-api-key header.
    pub anthropic: Option<AnthropicConfig>,
}

#[derive(Debug)]
pub struct VertexAiConfig {
    pub project_id: String,
    pub location: String,
    /// Merge the top-level attribution into the request as Vertex `labels`.
    pub attribution: bool,
}

#[derive(Debug)]
pub struct AzureOpenAiConfig {
    pub resource_name: String,
    pub api_version: String,
}

#[derive(Debug)]
pub struct GoogleAiConfig {
    /// API version prefix in the URL. Defaults to `v1beta`.
    pub api_version: String,
}

#[derive(Debug)]
pub struct AnthropicConfig {
    /// Sent as the `anthropic-version` header. Defaults to `2023-06-01`.
    pub version: String,
}

/// One way to serve an alias: a provider and its own name for the model.
#[derive(Debug)]
pub struct ModelCandidate {
    pub provider: String,
    pub model: String,
}

impl Clone for ModelCandidate {
    fn clone(&self) -> (r: Self)
        ensures
            r == *self,
    {
        ModelCandidate { provider: self.provider.clone(), model: self.model.clone() }
    }
}

#[derive(Debug)]
pub struct RoutingConfig {
    /// Smoothing shared by the latency and success-rate averages
    /// (about `1/ewma_alpha` samples of memory).
    pub ewma_alpha: Double,
    /// Exploit sharpness for proportional routing.
    pub exploit_k: Double,
    /// Error rate above which a session-affinity pin is broken.
    /// Routing weights never consult it.
    pub error_threshold: Double,
    pub connect_timeout_secs: u64,
    pub read_timeout_secs: u64,
    /// Maximum request body size in bytes; larger requests get 413.
    pub max_body_bytes: usize,
    /// Cap on the total bytes of request bodies buffered across all in-flight
    /// requests; beyond it new requests get 429.
    pub max_buffered_bytes: Option<usize>,
    pub shutdown_timeout_secs: u64,
}

/// The bits of 0.3.
pub const DEFAULT_EWMA_ALPHA: u64 = 0x3FD3_3333_3333_3333;

/// The bits of 0.5.
pub const DEFAULT_ERROR_THRESHOLD: u64 = 0x3FE0_0000_0000_0000;

impl Default for RoutingConfig {
    fn default() -> (r: Self)
        ensures
            r.ewma_alpha.bits == DEFAULT_EWMA_ALPHA == 0x3FD3_3333_3333_3333,
            r.exploit_k.bits == EXPLOIT_K == 0x4008_0000_0000_0000,
            r.error_threshold.bits == DEFAULT_ERROR_THRESHOLD == 0x3FE0_0000_0000_0000,
            r.connect_timeout_secs == 10,
            r.read_timeout_secs == 60,
            r.max_body_bytes == 32 * 1024 * 1024,
            r.max_buffered_bytes is None,
            r.shutdown_timeout_secs == 30,
    {
        RoutingConfig {
            ewma_alpha: Double::from_bits(DEFAULT_EWMA_ALPHA),
            exploit_k: Double::from_bits(EXPLOIT_K),
            error_threshold: Double::from_bits(DEFAULT_ERROR_THRESHOLD),
            connect_timeout_secs: 10,
            read_timeout_secs: 60,
            max_body_bytes: 32 * 1024 * 1024,
            max_buffered_bytes: None,
            shutdown_timeout_secs: 30,
        }
    }
}

impl Default for ProviderConfig {
    fn default() -> (r: Self)
        ensures
            r == (ProviderConfig {
                base_url: None,
                api_key: None,
                vertex_ai: None,
                azure_openai: None,
                google_ai: None,
                anthropic: None,
            }),
    {
        ProviderConfig {
            base_url: None,
            api_key: None,
            vertex_ai: None,
            azure_openai: None,
            google_ai: None,
            anthropic: None,
        }
    }
}

/// The address the proxy listens on unless told otherwise.
pub fn default_listen() -> (r: String)
    ensures
        r@ == "127.0.0.1:4000"@,
{
    "127.0.0.1:4000".to_owned()
}

impl GoogleAiConfig {
    /// The API version used when none is given.
    pub fn default_api_version() -> (r: String)
        ensures
            r@ == "v1beta"@,
    {
        "v1beta".to_owned()
    }
}

impl AnthropicConfig {
    /// The API version sent when none is given.
    pub fn default_version() -> (r: String)
        ensures
            r@ == "2023-06-01"@,
    {
        "2023-06-01".to_owned()
    }
}

impl VertexAiConfig {
    /// The endpoint of the project in its location. `global` has no regional
    /// hostname prefix.
    pub open spec fn url(&self) -> Seq<char> {
        let host = if self.location@ == "global"@ {
            "aiplatform.googleapis.com"@
        } else {
            self.location@ + "-aiplatform.googleapis.com"@
        };
        "https://"@ + host + "/v1beta1/projects/"@ + self.project_id@ + "/locations/"@
            + self.location@ + "/endpoints/openapi"@
    }
}

impl ProviderConfig {
    /// The base URL: the explicit one, else that of the first shorthand in
    /// the order Vertex, Azure, Google AI, Anthropic.
    pub open spec fn url(&self) -> Option<Seq<char>> {
        if let Some(u) = self.base_url {
            Some(u@)
        } else if let Some(v) = self.vertex_ai {
            Some(v.url())
        } else if let Some(az) = self.azure_openai {
            Some("https://"@ + az.resource_name@ + ".openai.azure.com/openai"@)
        } else if let Some(g) = self.google_ai {
            Some("https://generativelanguage.googleapis.com/"@ + g.api_version@ + "/openai"@)
        } else if self.anthropic is Some {
            Some("https://api.anthropic.com/v1"@)
        } else {
            None
        }
    }

    /// How requests are authorized: Vertex by its API key if there is one and
    /// by application credentials otherwise, Azure and Anthropic by headers of
    /// their own, everything else by bearer token.
    pub open spec fn kind(&self) -> ProviderKind {
        if self.vertex_ai is Some {
            if self.api_key is Some {
                ProviderKind::ApiKey
            } else {
                ProviderKind::GcpAdc
            }
        } else if let Some(az) = self.azure_openai {
            ProviderKind::AzureOpenAi { api_version: az.api_version }
        } else if self.google_ai is Some {
            ProviderKind::ApiKey
        } else if let Some(a) = self.anthropic {
            ProviderKind::Anthropic { version: a.version }
        } else {
            ProviderKind::ApiKey
        }
    }

    /// How many shorthands are set.
    pub open spec fn shorthands(&self) -> int {
        (if self.vertex_ai is Some { 1int } else { 0 })
            + (if self.azure_openai is Some { 1int } else { 0 })
            + (if self.google_ai is Some { 1int } else { 0 })
            + (if self.anthropic is Some { 1int } else { 0 })
    }

    /// Whether the provider is Vertex with attribution switched on.
    pub open spec fn opted_in(&self) -> bool {
        self.vertex_ai matches Some(v) && v.attribution
    }

    /// The base URL of the provider, if it is known.
    pub fn resolved_base_url(&self) -> (r: Option<String>)
        ensures
            match r {
                Some(u) => self.url() == Some(u@),
                None => self.url() is None,
            },
    {
        if let Some(u) = &self.base_url {
            return Some(u.clone());
        }
        if let Some(v) = &self.vertex_ai {
            let mut url = "https://".to_owned();
            if same(v.location.as_str(), "global") {
                url.append("aiplatform.googleapis.com");
            } else {
                url.append(v.location.as_str());
                url.append("-aiplatform.googleapis.com");
                assert(url@ =~= "https://"@ + (v.location@ + "-aiplatform.googleapis.com"@));
            }
            url.append("/v1beta1/projects/");
            url.append(v.project_id.as_str());
            url.append("/locations/");
            url.append(v.location.as_str());
            url.append("/endpoints/openapi");
            return Some(url);
        }
        if let Some(az) = &self.azure_openai {
            let mut url = "https://".to_owned();
            url.append(az.resource_name.as_str());
            url.append(".openai.azure.com/openai");
            return Some(url);
        }
        if let Some(g) = &self.google_ai {
            let mut url = "https://generativelanguage.googleapis.com/".to_owned();
            url.append(g.api_version.as_str());
            url.append("/openai");
            return Some(url);
        }
        if self.anthropic.is_some() {
            return Some("https://api.anthropic.com/v1".to_owned());
        }
        None
    }

    /// How requests to the provider are authorized.
    pub fn resolved_kind(&self) -> (r: ProviderKind)
        ensures
            r == self.kind(),
    {
        if self.vertex_ai.is_some() {
            if self.api_key.is_some() {
                return ProviderKind::ApiKey;
            }
            return ProviderKind::GcpAdc;
        }
        if let Some(az) = &self.azure_openai {
            return ProviderKind::AzureOpenAi { api_version: az.api_version.clone() };
        }
        if self.google_ai.is_some() {
            return ProviderKind::ApiKey;
        }
        if let Some(a) = &self.anthropic {
            return ProviderKind::Anthropic { version: a.version.clone() };
        }
        ProviderKind::ApiKey
    }

    /// Whether the provider is Vertex with attribution switched on.
    pub fn attributes(&self) -> (r: bool)
        ensures
            r == self.opted_in(),
    {
        match &self.vertex_ai {
            Some(v) => v.attribution,
            None => false,
        }
    }

    fn shorthand_count(&self) -> (n: usize)
        ensures
            n == self.shorthands(),
    {
        let mut n: usize = 0;
        if self.vertex_ai.is_some() {
            n += 1;
        }
        if self.azure_openai.is_some() {
            n += 1;
        }
        if self.google_ai.is_some() {
            n += 1;
        }
        if self.anthropic.is_some() {
            n += 1;
        }
        n
    }
}

/// Why a configuration is rejected.
#[derive(Debug)]
pub enum ConfigError {
    /// `ewma_alpha` is not between 0 and 1.
    EwmaAlpha { got: Double },
    /// `exploit_k` is negative, infinite or not a number.
    ExploitK { got: Double },
    /// `error_threshold` is not between 0 and 1.
    ErrorThreshold { got: Double },
    /// A provider has more than one shorthand.
    MultipleShorthands { provider: String },
    /// A provider has neither a base URL nor a shorthand.
    MissingBaseUrl { provider: String },
    /// A base URL is neither http nor https.
    InvalidBaseUrl { provider: String, base_url: String },
    /// An alias names a provider that is not configured.
    UnknownProvider { alias: String, provider: String },
    /// Attribution is switched on but there is nothing to attribute to.
    EmptyAttribution,
}

/// The content of a `ConfigError`.
pub enum Problem {
    EwmaAlpha { got: Double },
    ExploitK { got: Double },
    ErrorThreshold { got: Double },
    MultipleShorthands { provider: Seq<char> },
    MissingBaseUrl { provider: Seq<char> },
    InvalidBaseUrl { provider: Seq<char>, base_url: Seq<char> },
    UnknownProvider { alias: Seq<char>, provider: Seq<char> },
    EmptyAttribution,
}

impl View for ConfigError {
    type V = Problem;

    open spec fn view(&self) -> Problem {
        match *self {
            ConfigError::EwmaAlpha { got } => Problem::EwmaAlpha { got },
            ConfigError::ExploitK { got } => Problem::ExploitK { got },
            ConfigError::ErrorThreshold { got } => Problem::ErrorThreshold { got },
            ConfigError::MultipleShorthands { provider } => Problem::MultipleShorthands {
                provider: provider@,
            },
            ConfigError::MissingBaseUrl { provider } => Problem::MissingBaseUrl {
                provider: provider@,
            },
            ConfigError::InvalidBaseUrl { provider, base_url } => Problem::InvalidBaseUrl {
                provider: provider@,
                base_url: base_url@,
            },
            ConfigError::UnknownProvider { alias, provider } => Problem::UnknownProvider {
                alias: alias@,
                provider: provider@,
            },
            ConfigError::EmptyAttribution => Problem::EmptyAttribution,
        }
    }
}

impl Problem {
    /// What the operator is told; `shown` is the offending number in decimal.
    pub open spec fn text(self, shown: Seq<char>) -> Seq<char> {
        match self {
            Problem::EwmaAlpha { .. } => "ewma_alpha must be between 0.0 and 1.0, got "@ + shown,
            Problem::ExploitK { .. } => "exploit_k must be a finite value >= 0.0, got "@ + shown,
            Problem::ErrorThreshold { .. } => "error_threshold must be between 0.0 and 1.0, got "@
                + shown,
            Problem::MultipleShorthands { provider } => "provider '"@ + provider
                + "' has multiple provider shorthands; use only one of vertex_ai, azure_openai, google_ai, or anthropic"@,
            Problem::MissingBaseUrl { provider } => "provider '"@ + provider
                + "' must have base_url or a provider shorthand configured"@,
            Problem::InvalidBaseUrl { provider, base_url } => "provider '"@ + provider
                + "' has invalid base_url (must start with http:// or https://): "@ + base_url,
            Problem::UnknownProvider { alias, provider } => "model alias '"@ + alias
                + "' references unknown provider '"@ + provider + "'"@,
            Problem::EmptyAttribution =>
                "at least one provider has vertex_ai.attribution = true but the top-level [attribution] map is empty"@,
        }
    }
}

impl ConfigError {
    /// What the operator is told. `shown` is the offending number in decimal
    /// where there is one, and ignored elsewhere.
    pub fn message(&self, shown: &str) -> (r: String)
        ensures
            r@ == self@.text(shown@),
    {
        match self {
            ConfigError::EwmaAlpha { .. } => "ewma_alpha must be between 0.0 and 1.0, got "
                .to_owned()
                .concat(shown),
            ConfigError::ExploitK { .. } => "exploit_k must be a finite value >= 0.0, got "
                .to_owned()
                .concat(shown),
            ConfigError::ErrorThreshold { .. } =>
                "error_threshold must be between 0.0 and 1.0, got ".to_owned().concat(shown),
            ConfigError::MultipleShorthands { provider } => "provider '"
                .to_owned()
                .concat(provider.as_str())
                .concat("' has multiple provider shorthands; use only one of vertex_ai, azure_openai, google_ai, or anthropic"),
            ConfigError::MissingBaseUrl { provider } => "provider '"
                .to_owned()
                .concat(provider.as_str())
                .concat("' must have base_url or a provider shorthand configured"),
            ConfigError::InvalidBaseUrl { provider, base_url } => "provider '"
                .to_owned()
                .concat(provider.as_str())
                .concat("' has invalid base_url (must start with http:// or https://): ")
                .concat(base_url.as_str()),
            ConfigError::UnknownProvider { alias, provider } => "model alias '"
                .to_owned()
                .concat(alias.as_str())
                .concat("' references unknown provider '")
                .concat(provider.as_str())
                .concat("'"),
            ConfigError::EmptyAttribution =>
                "at least one provider has vertex_ai.attribution = true but the top-level [attribution] map is empty"
                .to_owned(),
        }
    }
}

/// Whether a base URL is http or https.
pub open spec fn http_url(url: Seq<char>) -> bool {
    "http://"@.is_prefix_of(url) || "https://"@.is_prefix_of(url)
}

/// What is wrong with one provider.
pub open spec fn provider_problem(name: Seq<char>, p: ProviderConfig) -> Option<Problem> {
    if p.shorthands() > 1 {
        Some(Problem::MultipleShorthands { provider: name })
    } else {
        match p.url() {
            None => Some(Problem::MissingBaseUrl { provider: name }),
            Some(url) => if http_url(url) {
                None
            } else {
                Some(Problem::InvalidBaseUrl { provider: name, base_url: url })
            },
        }
    }
}

/// What is wrong with the first faulty provider.
pub open spec fn providers_problem(ps: Seq<(String, ProviderConfig)>) -> Option<Problem>
    decreases ps.len(),
{
    if ps.len() == 0 {
        None
    } else {
        match provider_problem(ps[0].0@, ps[0].1) {
            Some(p) => Some(p),
            None => providers_problem(ps.skip(1)),
        }
    }
}

/// Whether a provider of that name is configured.
pub open spec fn has_provider(ps: Seq<(String, ProviderConfig)>, name: Seq<char>) -> bool {
    exists|i: int| 0 <= i < ps.len() && (#[trigger] ps[i]).0@ == name
}

/// The first provider with that name, or the number of providers.
pub open spec fn provider_position(ps: Seq<(String, ProviderConfig)>, name: Seq<char>) -> int
    decreases ps.len(),
{
    if ps.len() == 0 || ps[0].0@ == name {
        0
    } else {
        1 + provider_position(ps.skip(1), name)
    }
}

proof fn lemma_provider_position(ps: Seq<(String, ProviderConfig)>, name: Seq<char>, i: int)
    requires
        0 <= i < ps.len(),
        ps[i].0@ == name,
        forall|j: int| 0 <= j < i ==> (#[trigger] ps[j]).0@ != name,
    ensures
        provider_position(ps, name) == i,
    decreases ps.len(),
{
    if i > 0 {
        let rest = ps.skip(1);
        assert forall|j: int| 0 <= j < i - 1 implies (#[trigger] rest[j]).0@ != name by {
            assert(rest[j] == ps[j + 1]);
        }
        assert(rest[i - 1] == ps[i]);
        assert(ps[0].0@ != name);
        lemma_provider_position(rest, name, i - 1);
    }
}

/// The first candidate of an alias whose provider is not configured.
pub open spec fn candidates_problem(
    alias: Seq<char>,
    cs: Seq<ModelCandidate>,
    ps: Seq<(String, ProviderConfig)>,
) -> Option<Problem>
    decreases cs.len(),
{
    if cs.len() == 0 {
        None
    } else if !has_provider(ps, cs[0].provider@) {
        Some(Problem::UnknownProvider { alias, provider: cs[0].provider@ })
    } else {
        candidates_problem(alias, cs.skip(1), ps)
    }
}

/// The first reference from an alias to a provider that is not configured.
pub open spec fn models_problem(
    ms: Seq<(String, Vec<ModelCandidate>)>,
    ps: Seq<(String, ProviderConfig)>,
) -> Option<Problem>
    decreases ms.len(),
{
    if ms.len() == 0 {
        None
    } else {
        match candidates_problem(ms[0].0@, ms[0].1@, ps) {
            Some(p) => Some(p),
            None => models_problem(ms.skip(1), ps),
        }
    }
}

/// Whether some provider asks for attribution.
pub open spec fn any_opted_in(ps: Seq<(String, ProviderConfig)>) -> bool {
    exists|i: int| 0 <= i < ps.len() && (#[trigger] ps[i]).1.opted_in()
}

impl Config {
    /// No name is given twice in a table.
    pub open spec fn distinct_names(&self) -> bool {
        &&& forall|i: int, j: int|
            0 <= i < j < self.provider@.len() ==> (#[trigger] self.provider@[i]).0@ != (
            #[trigger] self.provider@[j]).0@
        &&& forall|i: int, j: int|
            0 <= i < j < self.model@.len() ==> (#[trigger] self.model@[i]).0@ != (
            #[trigger] self.model@[j]).0@
        &&& forall|i: int, j: int|
            0 <= i < j < self.attribution@.len() ==> (#[trigger] self.attribution@[i]).0@ != (
            #[trigger] self.attribution@[j]).0@
    }

    /// The first thing wrong with the configuration: the routing numbers,
    /// then the providers, then the aliases, then attribution.
    pub open spec fn problem(&self) -> Option<Problem> {
        if !self.routing.ewma_alpha.unit() {
            Some(Problem::EwmaAlpha { got: self.routing.ewma_alpha })
        } else if !self.routing.exploit_k.finite() || self.routing.exploit_k.scaled() < 0 {
            Some(Problem::ExploitK { got: self.routing.exploit_k })
        } else if !self.routing.error_threshold.unit() {
            Some(Problem::ErrorThreshold { got: self.routing.error_threshold })
        } else if let Some(p) = providers_problem(self.provider@) {
            Some(p)
        } else if let Some(p) = models_problem(self.model@, self.provider@) {
            Some(p)
        } else if any_opted_in(self.provider@) && self.attribution@.len() == 0 {
            Some(Problem::EmptyAttribution)
        } else {
            None
        }
    }

    /// The position of the first provider with that name, if there is one.
    pub fn provider_index(&self, name: &str) -> (r: Option<usize>)
        ensures
            match r {
                Some(i) => {
                    &&& i < self.provider@.len()
                    &&& i == provider_position(self.provider@, name@)
                    &&& self.provider@[i as int].0@ == name@
                    &&& has_provider(self.provider@, name@)
                },
                None => !has_provider(self.provider@, name@),
            },
    {
        let mut i: usize = 0;
        while i < self.provider.len()
            invariant
                i <= self.provider@.len(),
                forall|j: int| 0 <= j < i ==> (#[trigger] self.provider@[j]).0@ != name@,
            decreases self.provider@.len() - i,
        {
            if same(self.provider[i].0.as_str(), name) {
                proof {
                    lemma_provider_position(self.provider@, name@, i as int);
                }
                return Some(i);
            }
            i += 1;
        }
        None
    }

    /// Rejects a configuration the sidecar cannot run on, naming the first
    /// problem.
    pub fn validate(&self) -> (r: Result<(), ConfigError>)
        ensures
            match r {
                Ok(()) => self.problem() is None,
                Err(e) => self.problem() == Some(e@),
            },
    {
        if !self.routing.ewma_alpha.in_unit_interval() {
            return Err(ConfigError::EwmaAlpha { got: self.routing.ewma_alpha });
        }
        if !self.routing.exploit_k.is_finite_and_nonnegative() {
            return Err(ConfigError::ExploitK { got: self.routing.exploit_k });
        }
        if !self.routing.error_threshold.in_unit_interval() {
            return Err(ConfigError::ErrorThreshold { got: self.routing.error_threshold });
        }
        let ghost ps = self.provider@;
        let mut opted_in = false;
        let mut i: usize = 0;
        proof {
            assert(ps.skip(0) =~= ps);
        }
        while i < self.provider.len()
            invariant
                ps == self.provider@,
                i <= ps.len(),
                self.problem() == (if let Some(p) = providers_problem(ps) {
                    Some(p)
                } else if let Some(p) = models_problem(self.model@, ps) {
                    Some(p)
                } else if any_opted_in(ps) && self.attribution@.len() == 0 {
                    Some(Problem::EmptyAttribution)
                } else {
                    None
                }),
                providers_problem(ps) == providers_problem(ps.skip(i as int)),
                opted_in == (exists|j: int| 0 <= j < i && (#[trigger] ps[j]).1.opted_in()),
            decreases ps.len() - i,
        {
            let name = &self.provider[i].0;
            let p = &self.provider[i].1;
            proof {
                assert(ps.skip(i as int)[0] == ps[i as int]);
                assert(ps.skip(i as int).skip(1) =~= ps.skip(i + 1));
            }
            if p.shorthand_count() > 1 {
                return Err(ConfigError::MultipleShorthands { provider: name.clone() });
            }
            let base_url = match p.resolved_base_url() {
                Some(u) => u,
                None => {
                    return Err(ConfigError::MissingBaseUrl { provider: name.clone() });
                },
            };
            if !starts_with(base_url.as_str(), "http://") && !starts_with(
                base_url.as_str(),
                "https://",
            ) {
                return Err(ConfigError::InvalidBaseUrl { provider: name.clone(), base_url });
            }
            if p.attributes() {
                opted_in = true;
            }
            i += 1;
        }
        assert(providers_problem(ps.skip(i as int)) is None);
        let ghost ms = self.model@;
        let mut a: usize = 0;
        proof {
            assert(ms.skip(0) =~= ms);
        }
        while a < self.model.len()
            invariant
                ps == self.provider@,
                ms == self.model@,
                a <= ms.len(),
                self.problem() == (if let Some(p) = models_problem(ms, ps) {
                    Some(p)
                } else if any_opted_in(ps) && self.attribution@.len() == 0 {
                    Some(Problem::EmptyAttribution)
                } else {
                    None
                }),
                models_problem(ms, ps) == models_problem(ms.skip(a as int), ps),
            decreases ms.len() - a,
        {
            let alias = &self.model[a].0;
            let candidates = &self.model[a].1;
            let ghost cs = candidates@;
            let mut c: usize = 0;
            proof {
                assert(ms.skip(a as int)[0] == ms[a as int]);
                assert(ms.skip(a as int).skip(1) =~= ms.skip(a + 1));
                assert(cs.skip(0) =~= cs);
            }
            while c < candidates.len()
                invariant
                    ps == self.provider@,
                    ms == self.model@,
                    a < ms.len(),
                    cs == candidates@,
                    cs == ms[a as int].1@,
                    alias@ == ms[a as int].0@,
                    ms.skip(a as int)[0] == ms[a as int],
                    c <= cs.len(),
                    models_problem(ms, ps) == models_problem(ms.skip(a as int), ps),
                    self.problem() == (if let Some(p) = models_problem(ms, ps) {
                        Some(p)
                    } else if any_opted_in(ps) && self.attribution@.len() == 0 {
                        Some(Problem::EmptyAttribution)
                    } else {
                        None
                    }),
                    candidates_problem(alias@, cs, ps) == candidates_problem(
                        alias@,
                        cs.skip(c as int),
                        ps,
                    ),
                decreases cs.len() - c,
            {
                let provider = &candidates[c].provider;
                proof {
                    assert(cs.skip(c as int)[0] == cs[c as int]);
                    assert(cs.skip(c as int).skip(1) =~= cs.skip(c + 1));
                }
                match self.provider_index(provider.as_str()) {
                    Some(_) => {},
                    None => {
                        return Err(
                            ConfigError::UnknownProvider {
                                alias: alias.clone(),
                                provider: provider.clone(),
                            },
                        );
                    },
                }
                c += 1;
            }
            assert(candidates_problem(alias@, cs.skip(c as int), ps) is None);
            a += 1;
        }
        assert(models_problem(ms.skip(a as int), ps) is None);
        if opted_in && self.attribution.len() == 0 {
            return Err(ConfigError::EmptyAttribution);
        }
        Ok(())
    }

    /// Whether some provider needs GCP application credentials.
    pub fn needs_gcp(&self) -> (r: bool)
        ensures
            r == (exists|i: int|
                0 <= i < self.provider@.len() && (#[trigger] self.provider@[i]).1.kind()
                    == ProviderKind::GcpAdc),
    {
        let mut i: usize = 0;
        while i < self.provider.len()
            invariant
                i <= self.provider@.len(),
                forall|j: int|
                    0 <= j < i ==> (#[trigger] self.provider@[j]).1.kind() != ProviderKind::GcpAdc,
            decreases self.provider@.len() - i,
        {
            match self.provider[i].1.resolved_kind() {
                ProviderKind::GcpAdc => {
                    assert(self.provider@[i as int].1.kind() == ProviderKind::GcpAdc);
                    return true;
                },
                _ => {},
            }
            i += 1;
        }
        false
    }
}

proof fn lemma_providers_problem(ps: Seq<(String, ProviderConfig)>)
    ensures
        providers_problem(ps) is None <==> forall|i: int|
            0 <= i < ps.len() ==> provider_problem((#[trigger] ps[i]).0@, ps[i].1) is None,
    decreases ps.len(),
{
    if ps.len() > 0 {
        let rest = ps.skip(1);
        lemma_providers_problem(rest);
        if providers_problem(ps) is None {
            assert forall|i: int| 0 <= i < ps.len() implies provider_problem(
                (#[trigger] ps[i]).0@,
                ps[i].1,
            ) is None by {
                if i > 0 {
                    assert(rest[i - 1] == ps[i]);
                }
            }
        } else if provider_problem(ps[0].0@, ps[0].1) is None {
            let k = choose|i: int|
                0 <= i < rest.len() && provider_problem((#[trigger] rest[i]).0@, rest[i].1) is Some;
            assert(rest[k] == ps[k + 1]);
        }
    }
}

proof fn lemma_candidates_problem(
    alias: Seq<char>,
    cs: Seq<ModelCandidate>,
    ps: Seq<(String, ProviderConfig)>,
)
    ensures
        candidates_problem(alias, cs, ps) is None <==> forall|i: int|
            0 <= i < cs.len() ==> has_provider(ps, (#[trigger] cs[i]).provider@),
    decreases cs.len(),
{
    if cs.len() > 0 {
        let rest = cs.skip(1);
        lemma_candidates_problem(alias, rest, ps);
        if candidates_problem(alias, cs, ps) is None {
            assert forall|i: int| 0 <= i < cs.len() implies has_provider(
                ps,
                (#[trigger] cs[i]).provider@,
            ) by {
                if i > 0 {
                    assert(rest[i - 1] == cs[i]);
                }
            }
        } else if has_provider(ps, cs[0].provider@) {
            let k = choose|i: int|
                0 <= i < rest.len() && !has_provider(ps, (#[trigger] rest[i]).provider@);
            assert(rest[k] == cs[k + 1]);
        }
    }
}

/// Whether every candidate of an alias is on a configured provider.
pub open spec fn candidates_known(
    cs: Seq<ModelCandidate>,
    ps: Seq<(String, ProviderConfig)>,
) -> bool {
    forall|i: int| 0 <= i < cs.len() ==> has_provider(ps, (#[trigger] cs[i]).provider@)
}

proof fn lemma_models_problem(
    ms: Seq<(String, Vec<ModelCandidate>)>,
    ps: Seq<(String, ProviderConfig)>,
)
    ensures
        models_problem(ms, ps) is None <==> forall|i: int|
            0 <= i < ms.len() ==> candidates_known((#[trigger] ms[i]).1@, ps),
    decreases ms.len(),
{
    if ms.len() > 0 {
        let rest = ms.skip(1);
        lemma_models_problem(rest, ps);
        lemma_candidates_problem(ms[0].0@, ms[0].1@, ps);
        if models_problem(ms, ps) is None {
            assert forall|i: int| 0 <= i < ms.len() implies candidates_known(
                (#[trigger] ms[i]).1@,
                ps,
            ) by {
                if i > 0 {
                    assert(rest[i - 1] == ms[i]);
                }
            }
        } else if candidates_known(ms[0].1@, ps) {
            let k = choose|i: int|
                0 <= i < rest.len() && !candidates_known((#[trigger] rest[i]).1@, ps);
            assert(rest[k] == ms[k + 1]);
        }
    }
}

/// A configuration is accepted exactly when the two rates are from 0 to 1,
/// the sharpness is finite and not negative, every provider has at most one
/// shorthand and an http or https base URL, every alias names configured
/// providers only, and attribution, once asked for, has labels.
pub proof fn accepted_configurations(config: Config)
    ensures
        config.problem() is None <==> {
            &&& config.routing.ewma_alpha.unit()
            &&& config.routing.exploit_k.finite() && config.routing.exploit_k.scaled() >= 0
            &&& config.routing.error_threshold.unit()
            &&& forall|i: int|
                0 <= i < config.provider@.len() ==> (#[trigger] config.provider@[i]).1.shorthands()
                    <= 1
            &&& forall|i: int|
                0 <= i < config.provider@.len() ==> ((#[trigger] config.provider@[i]).1.url() matches Some(
                    url,
                ) && http_url(url))
            &&& forall|i: int|
                0 <= i < config.model@.len() ==> candidates_known(
                    (#[trigger] config.model@[i]).1@,
                    config.provider@,
                )
            &&& any_opted_in(config.provider@) ==> config.attribution@.len() > 0
        },
{
    lemma_providers_problem(config.provider@);
    lemma_models_problem(config.model@, config.provider@);
    let ps = config.provider@;
    if providers_problem(ps) is None {
        assert forall|i: int| 0 <= i < ps.len() implies (#[trigger] ps[i]).1.shorthands() <= 1 && (
        ps[i].1.url() matches Some(url) && http_url(url)) by {
            assert(provider_problem(ps[i].0@, ps[i].1) is None);
        }
    } else {
        let k = choose|i: int|
            0 <= i < ps.len() && provider_problem((#[trigger] ps[i]).0@, ps[i].1) is Some;
        assert(ps[k].1.shorthands() > 1 || !(ps[k].1.url() matches Some(url) && http_url(url)));
    }
}

/// Where the aggregate buffer budget comes from.
pub open spec fn budget_rule(
    explicit: Option<usize>,
    cgroup: Option<u64>,
    max_body: usize,
) -> (int, Seq<char>) {
    if let Some(bytes) = explicit {
        (bytes as int, "max_buffered_bytes"@)
    } else if let Some(limit) = cgroup {
        (
            if limit / 2 <= usize::MAX {
                (limit / 2) as int
            } else {
                usize::MAX as int
            },
            "cgroup"@,
        )
    } else {
        (
            if max_body * 4 <= usize::MAX {
                max_body * 4
            } else {
                usize::MAX as int
            },
            "4x max_body_bytes"@,
        )
    }
}

impl RoutingConfig {
    /// Resolve the aggregate buffer budget in bytes, and where it came from
    /// (for the startup log): explicit config, half the cgroup memory limit,
    /// or a multiple of the per-request cap.
    pub fn buffer_budget_bytes(&self, cgroup: Option<u64>) -> (r: (usize, &'static str))
        ensures
            (r.0 as int, r.1@) == budget_rule(
                self.max_buffered_bytes,
                cgroup,
                self.max_body_bytes,
            ),
    {
        if let Some(bytes) = self.max_buffered_bytes {
            return (bytes, "max_buffered_bytes");
        }
        if let Some(limit) = cgroup {
            let half: u64 = limit / 2;
            let bytes: usize = if half <= usize::MAX as u64 {
                half as usize
            } else {
                usize::MAX
            };
            return (bytes, "cgroup");
        }
        let bytes: usize = match self.max_body_bytes.checked_mul(4) {
            Some(b) => b,
            None => usize::MAX,
        };
        (bytes, "4x max_body_bytes")
    }
}

/// The cgroup v2 limit: a byte count, or "max" when there is none.
pub open spec fn cgroup_v2(raw: Seq<char>) -> Option<u64> {
    text::unsigned_value(text::trimmed(raw))
}

/// Above this a cgroup v1 limit means "none": the kernel reports a
/// page-rounded `i64::MAX`.
pub const UNBOUNDED_THRESHOLD: u64 = 0x1000_0000_0000_0000;

/// The cgroup v1 limit: a byte count below the threshold.
pub open spec fn cgroup_v1(raw: Seq<char>) -> Option<u64> {
    match text::unsigned_value(text::trimmed(raw)) {
        Some(n) => if n < UNBOUNDED_THRESHOLD {
            Some(n)
        } else {
            None
        },
        None => None,
    }
}

/// v2: a byte count, or "max" (unparseable) when unlimited.
pub fn parse_cgroup_v2(raw: &str) -> (r: Option<u64>)
    ensures
        r == cgroup_v2(raw@),
{
    parse_unsigned(trim(raw))
}

/// v1: a byte count; reports a page-rounded `i64::MAX` when unlimited.
pub fn parse_cgroup_v1(raw: &str) -> (r: Option<u64>)
    ensures
        r == cgroup_v1(raw@),
{
    match parse_unsigned(trim(raw)) {
        Some(limit) => if limit < UNBOUNDED_THRESHOLD {
            Some(limit)
        } else {
            None
        },
        None => None,
    }
}

/// The container's memory limit from the contents of the two cgroup files,
/// where they could be read: v2 if it is there, else v1, else unlimited.
pub fn cgroup_memory_limit_from(v2: Option<&str>, v1: Option<&str>) -> (r: Option<u64>)
    ensures
        r == match v2 {
            Some(raw) => cgroup_v2(raw@),
            None => match v1 {
                Some(raw) => cgroup_v1(raw@),
                None => None,
            },
        },
{
    if let Some(raw) = v2 {
        return parse_cgroup_v2(raw);
    }
    match v1 {
        Some(raw) => parse_cgroup_v1(raw),
        None => None,
    }
}

/// What to do with one entry of a directory of secret files.
#[derive(Debug, Clone, Copy, PartialEq, Eq, Structural)]
pub enum SecretEntry {
    /// Not a file, or hidden.
    Skip,
    /// A file whose name cannot be a variable's.
    NameNotUtf8,
    /// A variable named like the file.
    Load,
}

/// Decides on an entry by its type and, where it is UTF-8, its name:
/// anything but a file or a symlink is skipped, and so are hidden files.
pub fn secret_entry(is_file: bool, is_symlink: bool, name: Option<&str>) -> (r: SecretEntry)
    ensures
        r == if !is_file && !is_symlink {
            SecretEntry::Skip
        } else {
            match name {
                None => SecretEntry::NameNotUtf8,
                Some(n) => if n@.len() > 0 && n@[0] == '.' {
                    SecretEntry::Skip
                } else {
                    SecretEntry::Load
                },
            }
        },
{
    if !is_file && !is_symlink {
        return SecretEntry::Skip;
    }
    match name {
        None => SecretEntry::NameNotUtf8,
        Some(n) => {
            proof {
                reveal_strlit(".");
            }
            if starts_with(n, ".") {
                assert(n@.subrange(0, 1)[0] == n@[0]);
                SecretEntry::Skip
            } else {
                assert(n@.len() > 0 && n@[0] == '.' ==> "."@ =~= n@.subrange(0, 1));
                SecretEntry::Load
            }
        },
    }
}

/// The value of a secret: the file's contents without trailing newlines.
pub fn secret_value<'a>(contents: &'a str) -> (r: &'a str)
    ensures
        r@ == text::trim_end_of(contents@, '\n'),
{
    trim_end_matches(contents, '\n')
}

/// A provider's own base URL goes before any shorthand, and of the shorthands
/// the first in the order Vertex, Azure, Google AI, Anthropic counts.
pub proof fn base_urls_come_from_the_first_that_is_set(p: ProviderConfig)
    ensures
        p.base_url matches Some(u) ==> p.url() == Some(u@),
        p.base_url is None ==> {
            &&& p.vertex_ai matches Some(v) ==> {
                &&& v.location@ == "global"@ ==> p.url() == Some(
                    "https://"@ + "aiplatform.googleapis.com"@ + "/v1beta1/projects/"@
                        + v.project_id@ + "/locations/"@ + v.location@ + "/endpoints/openapi"@,
                )
                &&& v.location@ != "global"@ ==> p.url() == Some(
                    "https://"@ + (v.location@ + "-aiplatform.googleapis.com"@)
                        + "/v1beta1/projects/"@ + v.project_id@ + "/locations/"@ + v.location@
                        + "/endpoints/openapi"@,
                )
            }
            &&& p.vertex_ai is None ==> {
                &&& p.azure_openai matches Some(az) ==> p.url() == Some(
                    "https://"@ + az.resource_name@ + ".openai.azure.com/openai"@,
                )
                &&& p.azure_openai is None ==> {
                    &&& p.google_ai matches Some(g) ==> p.url() == Some(
                        "https://generativelanguage.googleapis.com/"@ + g.api_version@
                            + "/openai"@,
                    )
                    &&& p.google_ai is None && p.anthropic is Some ==> p.url() == Some(
                        "https://api.anthropic.com/v1"@,
                    )
                    &&& p.google_ai is None && p.anthropic is None ==> p.url() is None
                }
            }
        },
{
}

/// Application credentials are for Vertex without a key; Azure and Anthropic
/// have headers of their own, with their own version, where no other shorthand
/// goes before them; everybody else is on a bearer token.
pub proof fn kinds_follow_the_shorthands(p: ProviderConfig)
    ensures
        p.kind() is GcpAdc <==> p.vertex_ai is Some && p.api_key is None,
        p.kind() is AzureOpenAi <==> p.vertex_ai is None && p.azure_openai is Some,
        p.kind() is Anthropic <==> p.vertex_ai is None && p.azure_openai is None && p.google_ai
            is None && p.anthropic is Some,
        p.kind() matches ProviderKind::AzureOpenAi { api_version } ==> api_version == (
        p.azure_openai->0).api_version,
        p.kind() matches ProviderKind::Anthropic { version } ==> version == (
        p.anthropic->0).version,
{
}

/// At most one shorthand is set exactly where no two are; attribution is
/// switched on in the Vertex shorthand alone.
pub proof fn shorthands_are_counted(p: ProviderConfig)
    ensures
        p.shorthands() <= 1 <==> {
            &&& !(p.vertex_ai is Some && p.azure_openai is Some)
            &&& !(p.vertex_ai is Some && p.google_ai is Some)
            &&& !(p.vertex_ai is Some && p.anthropic is Some)
            &&& !(p.azure_openai is Some && p.google_ai is Some)
            &&& !(p.azure_openai is Some && p.anthropic is Some)
            &&& !(p.google_ai is Some && p.anthropic is Some)
        },
        p.opted_in() <==> p.vertex_ai is Some && (p.vertex_ai->0).attribution,
{
}

/// A base URL is one that begins with `http://` or `https://`.
pub proof fn base_urls_begin_with_their_scheme(url: Seq<char>)
    ensures
        http_url(url) <==> exists|rest: Seq<char>|
            url == #[trigger] ("http://"@ + rest) || url == "https://"@ + rest,
{
    if "http://"@.is_prefix_of(url) {
        assert(url =~= "http://"@ + url.skip("http://"@.len() as int));
    }
    if "https://"@.is_prefix_of(url) {
        let rest = url.skip("https://"@.len() as int);
        assert(url =~= "https://"@ + rest);
        assert("http://"@ + rest == "http://"@ + rest);
    }
    if exists|rest: Seq<char>| url == #[trigger] ("http://"@ + rest) || url == "https://"@ + rest {
        let rest = choose|rest: Seq<char>|
            url == #[trigger] ("http://"@ + rest) || url == "https://"@ + rest;
        if url == "http://"@ + rest {
            assert(url.subrange(0, "http://"@.len() as int) =~= "http://"@);
        } else {
            assert(url.subrange(0, "https://"@.len() as int) =~= "https://"@);
        }
    }
}

/// The routing numbers are looked at first, in order.
pub proof fn routing_numbers_are_looked_at_first(config: Config)
    ensures
        !config.routing.ewma_alpha.unit() ==> config.problem() == Some(
            Problem::EwmaAlpha { got: config.routing.ewma_alpha },
        ),
        config.routing.ewma_alpha.unit() && (!config.routing.exploit_k.finite()
            || config.routing.exploit_k.scaled() < 0) ==> config.problem() == Some(
            Problem::ExploitK { got: config.routing.exploit_k },
        ),
        config.routing.ewma_alpha.unit() && config.routing.exploit_k.finite()
            && config.routing.exploit_k.scaled() >= 0 && !config.routing.error_threshold.unit()
            ==> config.problem() == Some(
            Problem::ErrorThreshold { got: config.routing.error_threshold },
        ),
{
}

/// Whether the routing numbers are in order.
pub open spec fn routing_in_order(routing: RoutingConfig) -> bool {
    &&& routing.ewma_alpha.unit()
    &&& routing.exploit_k.finite() && routing.exploit_k.scaled() >= 0
    &&& routing.error_threshold.unit()
}

/// Whether a provider has at most one shorthand and an http or https base URL.
pub open spec fn provider_in_order(p: ProviderConfig) -> bool {
    p.shorthands() <= 1 && (p.url() matches Some(url) && http_url(url))
}

proof fn lemma_first_faulty_provider(ps: Seq<(String, ProviderConfig)>, i: int)
    requires
        0 <= i <= ps.len(),
        forall|j: int| 0 <= j < i ==> provider_in_order((#[trigger] ps[j]).1),
        i < ps.len() ==> !provider_in_order(ps[i].1),
    ensures
        providers_problem(ps) == if i < ps.len() {
            provider_problem(ps[i].0@, ps[i].1)
        } else {
            None
        },
    decreases ps.len(),
{
    if i > 0 {
        let rest = ps.skip(1);
        assert(provider_in_order(ps[0].1));
        assert forall|j: int| 0 <= j < i - 1 implies provider_in_order((#[trigger] rest[j]).1) by {
            assert(rest[j] == ps[j + 1]);
        }
        if i < ps.len() {
            assert(rest[i - 1] == ps[i]);
        }
        lemma_first_faulty_provider(rest, i - 1);
    }
}

/// With the routing numbers in order, the first faulty provider is named: for
/// its shorthands where it has more than one, else for the base URL it lacks,
/// else for the one it has.
pub proof fn the_first_faulty_provider_is_named(config: Config, i: int)
    requires
        routing_in_order(config.routing),
        0 <= i < config.provider@.len(),
        forall|j: int| 0 <= j < i ==> provider_in_order((#[trigger] config.provider@[j]).1),
        !provider_in_order(config.provider@[i].1),
    ensures
        ({
            let name = config.provider@[i].0@;
            let p = config.provider@[i].1;
            &&& p.shorthands() > 1 ==> config.problem() == Some(
                Problem::MultipleShorthands { provider: name },
            )
            &&& p.shorthands() <= 1 && p.url() is None ==> config.problem() == Some(
                Problem::MissingBaseUrl { provider: name },
            )
            &&& p.shorthands() <= 1 && p.url() is Some ==> config.problem() == Some(
                Problem::InvalidBaseUrl { provider: name, base_url: p.url()->0 },
            )
        }),
{
    lemma_first_faulty_provider(config.provider@, i);
}

proof fn lemma_first_unknown(
    alias: Seq<char>,
    cs: Seq<ModelCandidate>,
    ps: Seq<(String, ProviderConfig)>,
    k: int,
)
    requires
        0 <= k < cs.len(),
        forall|j: int| 0 <= j < k ==> has_provider(ps, (#[trigger] cs[j]).provider@),
        !has_provider(ps, cs[k].provider@),
    ensures
        candidates_problem(alias, cs, ps) == Some(
            Problem::UnknownProvider { alias, provider: cs[k].provider@ },
        ),
    decreases cs.len(),
{
    if k > 0 {
        let rest = cs.skip(1);
        assert(has_provider(ps, cs[0].provider@));
        assert forall|j: int| 0 <= j < k - 1 implies has_provider(
            ps,
            (#[trigger] rest[j]).provider@,
        ) by {
            assert(rest[j] == cs[j + 1]);
        }
        assert(rest[k - 1] == cs[k]);
        lemma_first_unknown(alias, rest, ps, k - 1);
    }
}

proof fn lemma_first_faulty_alias(
    ms: Seq<(String, Vec<ModelCandidate>)>,
    ps: Seq<(String, ProviderConfig)>,
    a: int,
    k: int,
)
    requires
        0 <= a < ms.len(),
        0 <= k < ms[a].1@.len(),
        forall|b: int| 0 <= b < a ==> candidates_known((#[trigger] ms[b]).1@, ps),
        forall|j: int| 0 <= j < k ==> has_provider(ps, (#[trigger] ms[a].1@[j]).provider@),
        !has_provider(ps, ms[a].1@[k].provider@),
    ensures
        models_problem(ms, ps) == Some(
            Problem::UnknownProvider { alias: ms[a].0@, provider: ms[a].1@[k].provider@ },
        ),
    decreases ms.len(),
{
    if a == 0 {
        lemma_first_unknown(ms[0].0@, ms[0].1@, ps, k);
    } else {
        let rest = ms.skip(1);
        assert(candidates_known(ms[0].1@, ps));
        lemma_candidates_problem(ms[0].0@, ms[0].1@, ps);
        assert forall|b: int| 0 <= b < a - 1 implies candidates_known(
            (#[trigger] rest[b]).1@,
            ps,
        ) by {
            assert(rest[b] == ms[b + 1]);
        }
        assert(rest[a - 1] == ms[a]);
        lemma_first_faulty_alias(rest, ps, a - 1, k);
    }
}

/// With the numbers and all providers in order, the first reference to a
/// provider that is not configured is named, with its alias.
pub proof fn the_first_unknown_provider_is_named(config: Config, a: int, k: int)
    requires
        routing_in_order(config.routing),
        forall|i: int|
            0 <= i < config.provider@.len() ==> provider_in_order((#[trigger] config.provider@[i]).1),
        0 <= a < config.model@.len(),
        0 <= k < config.model@[a].1@.len(),
        forall|b: int|
            0 <= b < a ==> candidates_known((#[trigger] config.model@[b]).1@, config.provider@),
        forall|j: int|
            0 <= j < k ==> has_provider(
                config.provider@,
                (#[trigger] config.model@[a].1@[j]).provider@,
            ),
        !has_provider(config.provider@, config.model@[a].1@[k].provider@),
    ensures
        config.problem() == Some(
            Problem::UnknownProvider {
                alias: config.model@[a].0@,
                provider: config.model@[a].1@[k].provider@,
            },
        ),
{
    lemma_first_faulty_provider(config.provider@, config.provider@.len() as int);
    lemma_first_faulty_alias(config.model@, config.provider@, a, k);
}

/// With all else in order, attribution that has no labels to attribute to is
/// what is left to be wrong.
pub proof fn attribution_needs_labels(config: Config, i: int)
    requires
        routing_in_order(config.routing),
        forall|j: int|
            0 <= j < config.provider@.len() ==> provider_in_order((#[trigger] config.provider@[j]).1),
        forall|a: int|
            0 <= a < config.model@.len() ==> candidates_known(
                (#[trigger] config.model@[a]).1@,
                config.provider@,
            ),
        0 <= i < config.provider@.len(),
        config.provider@[i].1.vertex_ai is Some,
        (config.provider@[i].1.vertex_ai->0).attribution,
    ensures
        config.attribution@.len() == 0 ==> config.problem() == Some(Problem::EmptyAttribution),
        config.attribution@.len() > 0 ==> config.problem() is None,
{
    lemma_first_faulty_provider(config.provider@, config.provider@.len() as int);
    lemma_models_problem(config.model@, config.provider@);
    assert(config.provider@[i].1.opted_in());
}

/// A provider is known where one has its name, and the first of that name is
/// the one that counts.
pub proof fn providers_are_found_by_name(
    ps: Seq<(String, ProviderConfig)>,
    name: Seq<char>,
    i: int,
)
    requires
        0 <= i < ps.len(),
        ps[i].0@ == name,
        forall|j: int| 0 <= j < i ==> (#[trigger] ps[j]).0@ != name,
    ensures
        has_provider(ps, name),
        provider_position(ps, name) == i,
{
    lemma_provider_position(ps, name, i);
}

/// A provider is unknown where none has its name.
pub proof fn providers_of_no_name_are_unknown(ps: Seq<(String, ProviderConfig)>, name: Seq<char>)
    requires
        forall|j: int| 0 <= j < ps.len() ==> (#[trigger] ps[j]).0@ != name,
    ensures
        !has_provider(ps, name),
{
}

/// What the operator is told of each problem.
pub proof fn problems_are_told_to_the_operator(
    got: Double,
    name: Seq<char>,
    other: Seq<char>,
    shown: Seq<char>,
)
    ensures
        (Problem::EwmaAlpha { got }).text(shown)
            == "ewma_alpha must be between 0.0 and 1.0, got "@ + shown,
        (Problem::ExploitK { got }).text(shown)
            == "exploit_k must be a finite value >= 0.0, got "@ + shown,
        (Problem::ErrorThreshold { got }).text(shown)
            == "error_threshold must be between 0.0 and 1.0, got "@ + shown,
        (Problem::MultipleShorthands { provider: name }).text(shown) == "provider '"@ + name
            + "' has multiple provider shorthands; use only one of vertex_ai, azure_openai, google_ai, or anthropic"@,
        (Problem::MissingBaseUrl { provider: name }).text(shown) == "provider '"@ + name
            + "' must have base_url or a provider shorthand configured"@,
        (Problem::InvalidBaseUrl { provider: name, base_url: other }).text(shown) == "provider '"@
            + name + "' has invalid base_url (must start with http:// or https://): "@ + other,
        (Problem::UnknownProvider { alias: other, provider: name }).text(shown) == "model alias '"@
            + other + "' references unknown provider '"@ + name + "'"@,
        Problem::EmptyAttribution.text(shown)
            == "at least one provider has vertex_ai.attribution = true but the top-level [attribution] map is empty"@,
{
}

/// The content of an error is what it carries.
pub proof fn errors_carry_their_problem(e: ConfigError)
    ensures
        match e {
            ConfigError::EwmaAlpha { got } => e@ == (Problem::EwmaAlpha { got }),
            ConfigError::ExploitK { got } => e@ == (Problem::ExploitK { got }),
            ConfigError::ErrorThreshold { got } => e@ == (Problem::ErrorThreshold { got }),
            ConfigError::MultipleShorthands { provider } => e@ == (Problem::MultipleShorthands {
                provider: provider@,
            }),
            ConfigError::MissingBaseUrl { provider } => e@ == (Problem::MissingBaseUrl {
                provider: provider@,
            }),
            ConfigError::InvalidBaseUrl { provider, base_url } => e@ == (Problem::InvalidBaseUrl {
                provider: provider@,
                base_url: base_url@,
            }),
            ConfigError::UnknownProvider { alias, provider } => e@ == (Problem::UnknownProvider {
                alias: alias@,
                provider: provider@,
            }),
            ConfigError::EmptyAttribution => e@ == Problem::EmptyAttribution,
        },
{
}

/// The budget is what is configured; else half of the container's memory, in
/// whole bytes; else four bodies of the largest size. It never exceeds what
/// can be counted.
pub proof fn budgets_come_from_the_first_that_is_known(
    explicit: Option<usize>,
    cgroup: Option<u64>,
    max_body: usize,
)
    ensures
        explicit matches Some(bytes) ==> budget_rule(explicit, cgroup, max_body) == (
            bytes as int,
            "max_buffered_bytes"@,
        ),
        explicit is None && cgroup is Some ==> {
            let (bytes, from) = budget_rule(explicit, cgroup, max_body);
            let limit = (cgroup->0) as int;
            &&& from == "cgroup"@
            &&& limit <= 2 * usize::MAX ==> 2 * bytes <= limit <= 2 * bytes + 1
            &&& limit > 2 * usize::MAX ==> bytes == usize::MAX
        },
        explicit is None && cgroup is None ==> {
            let (bytes, from) = budget_rule(explicit, cgroup, max_body);
            &&& from == "4x max_body_bytes"@
            &&& 4 * max_body <= usize::MAX ==> bytes == 4 * max_body
            &&& 4 * max_body > usize::MAX ==> bytes == usize::MAX
        },
{
}

/// A container's limit is the decimal number that its file holds between white
/// space; the older kind of file says "none" by a number of 2 to the 60th or
/// more.
pub proof fn container_limits_are_decimal_numbers(raw: Seq<char>)
    ensures
        cgroup_v2(raw) == text::unsigned_value(text::trimmed(raw)),
        cgroup_v1(raw) matches Some(n) ==> n < 1_152_921_504_606_846_976 && cgroup_v2(raw) == Some(
            n,
        ),
        cgroup_v1(raw) is None ==> cgroup_v2(raw) is None || cgroup_v2(raw)->0
            >= 1_152_921_504_606_846_976,
{
}

/// What `validate` gives: nothing exactly where the numbers are in range, all
/// providers have at most one shorthand and an http or https base URL, all
/// aliases name configured providers, and attribution has labels.
pub proof fn configurations_are_accepted_in_order(config: &Config, r: Result<(), ConfigError>)
    requires
        call_ensures(Config::validate, (config,), r),
    ensures
        r is Ok <==> {
            &&& config.routing.ewma_alpha.unit()
            &&& config.routing.exploit_k.finite() && config.routing.exploit_k.scaled() >= 0
            &&& config.routing.error_threshold.unit()
            &&& forall|i: int|
                0 <= i < config.provider@.len() ==> (#[trigger] config.provider@[i]).1.shorthands()
                    <= 1
            &&& forall|i: int|
                0 <= i < config.provider@.len() ==> ((
                #[trigger] config.provider@[i]).1.url() matches Some(url) && http_url(url))
            &&& forall|a: int, j: int|
                0 <= a < config.model@.len() && 0 <= j < config.model@[a].1@.len() ==> has_provider(
                    config.provider@,
                    (#[trigger] config.model@[a].1@[j]).provider@,
                )
            &&& (exists|i: int|
                0 <= i < config.provider@.len() && (#[trigger] config.provider@[i]).1.opted_in())
                ==> config.attribution@.len() > 0
        },
        r matches Err(e) ==> config.problem() == Some(e@),
{
    accepted_configurations(*config);
    if forall|i: int|
        0 <= i < config.model@.len() ==> candidates_known(
            (#[trigger] config.model@[i]).1@,
            config.provider@,
        ) {
        assert forall|a: int, j: int|
            0 <= a < config.model@.len() && 0 <= j < config.model@[a].1@.len() implies has_provider(
            config.provider@,
            (#[trigger] config.model@[a].1@[j]).provider@,
        ) by {
            assert(candidates_known(config.model@[a].1@, config.provider@));
        }
    } else {
        let a = choose|a: int|
            0 <= a < config.model@.len() && !candidates_known(
                (#[trigger] config.model@[a]).1@,
                config.provider@,
            );
        let j = choose|j: int|
            0 <= j < config.model@[a].1@.len() && !has_provider(
                config.provider@,
                (#[trigger] config.model@[a].1@[j]).provider@,
            );
        assert(!has_provider(config.provider@, config.model@[a].1@[j].provider@));
    }
}

/// What a provider resolves to, and whether any is on application
/// credentials.
pub proof fn providers_resolve_by_what_is_set(
    p: &ProviderConfig,
    url: Option<String>,
    kind: ProviderKind,
    attributed: bool,
    config: &Config,
    gcp: bool,
)
    requires
        call_ensures(ProviderConfig::resolved_base_url, (p,), url),
        call_ensures(ProviderConfig::resolved_kind, (p,), kind),
        call_ensures(ProviderConfig::attributes, (p,), attributed),
        call_ensures(Config::needs_gcp, (config,), gcp),
    ensures
        p.base_url matches Some(u) ==> url is Some && (url->0)@ == u@,
        url is None <==> p.base_url is None && p.vertex_ai is None && p.azure_openai is None
            && p.google_ai is None && p.anthropic is None,
        p.base_url is None && p.vertex_ai is None && p.azure_openai is Some ==> (url->0)@
            == "https://"@ + (p.azure_openai->0).resource_name@ + ".openai.azure.com/openai"@,
        kind is GcpAdc <==> p.vertex_ai is Some && p.api_key is None,
        kind is AzureOpenAi <==> p.vertex_ai is None && p.azure_openai is Some,
        kind is Anthropic <==> p.vertex_ai is None && p.azure_openai is None && p.google_ai is None
            && p.anthropic is Some,
        attributed <==> p.vertex_ai is Some && (p.vertex_ai->0).attribution,
        gcp <==> exists|i: int|
            0 <= i < config.provider@.len() && (#[trigger] config.provider@[i]).1.vertex_ai is Some
                && config.provider@[i].1.api_key is None,
{
    base_urls_come_from_the_first_that_is_set(*p);
    kinds_follow_the_shorthands(*p);
    assert forall|i: int| 0 <= i < config.provider@.len() implies ((
    #[trigger] config.provider@[i]).1.kind() == ProviderKind::GcpAdc <==> config.provider@[i].1.vertex_ai
        is Some && config.provider@[i].1.api_key is None) by {
        kinds_follow_the_shorthands(config.provider@[i].1);
    }
    if gcp {
        let i = choose|i: int|
            0 <= i < config.provider@.len() && (#[trigger] config.provider@[i]).1.kind()
                == ProviderKind::GcpAdc;
        assert(config.provider@[i].1.vertex_ai is Some);
    }
}

/// What the budget is resolved to, and from where.
pub proof fn budgets_are_resolved(
    routing: &RoutingConfig,
    cgroup: Option<u64>,
    r: (usize, &'static str),
)
    requires
        call_ensures(RoutingConfig::buffer_budget_bytes, (routing, cgroup), r),
    ensures
        routing.max_buffered_bytes matches Some(bytes) ==> r.0 == bytes && r.1@
            == "max_buffered_bytes"@,
        routing.max_buffered_bytes is None && cgroup is Some ==> r.1@ == "cgroup"@ && if cgroup->0
            <= 2 * usize::MAX {
            2 * r.0 <= cgroup->0 <= 2 * r.0 + 1
        } else {
            r.0 == usize::MAX
        },
        routing.max_buffered_bytes is None && cgroup is None ==> r.1@ == "4x max_body_bytes"@ && if 4
            * routing.max_body_bytes <= usize::MAX {
            r.0 == 4 * routing.max_body_bytes
        } else {
            r.0 == usize::MAX
        },
{
    budgets_come_from_the_first_that_is_known(
        routing.max_buffered_bytes,
        cgroup,
        routing.max_body_bytes,
    );
}

/// What the container's memory limit is read as: the newer file where it is
/// there, whatever it says, else the older one below 2 to the 60th.
pub proof fn container_limits_are_read(v2: Option<&str>, v1: Option<&str>, r: Option<u64>)
    requires
        call_ensures(cgroup_memory_limit_from, (v2, v1), r),
    ensures
        v2 matches Some(raw) ==> r == text::unsigned_value(text::trimmed(raw@)),
        v2 is None && v1 is None ==> r is None,
        v2 is None && v1 is Some ==> {
            let n = text::unsigned_value(text::trimmed((v1->0)@));
            r == if n is Some && n->0 < 1_152_921_504_606_846_976 {
                n
            } else {
                None
            }
        },
{
}

/// What becomes of the entries of a directory of secrets: files and symlinks
/// are loaded unless their name begins with a dot, and their values end before
/// their trailing newlines.
pub proof fn secrets_are_loaded_from_files(
    is_file: bool,
    is_symlink: bool,
    name: Option<&str>,
    entry: SecretEntry,
    contents: &str,
    value: &str,
)
    requires
        call_ensures(secret_entry, (is_file, is_symlink, name), entry),
        call_ensures(secret_value, (contents,), value),
    ensures
        !is_file && !is_symlink ==> entry == SecretEntry::Skip,
        (is_file || is_symlink) && name is None ==> entry == SecretEntry::NameNotUtf8,
        (is_file || is_symlink) && name is Some ==> (entry == SecretEntry::Skip <==> (
        name->0)@.len() > 0 && (name->0)@[0] == '.') && (entry == SecretEntry::Skip || entry
            == SecretEntry::Load),
        value@ == text::trim_end_of(contents@, '\n'),
{
}

/// What is assumed where nothing is configured.
pub proof fn defaults_are_assumed(
    listen: String,
    google: String,
    anthropic: String,
    routing: RoutingConfig,
)
    requires
        call_ensures(default_listen, (), listen),
        call_ensures(GoogleAiConfig::default_api_version, (), google),
        call_ensures(AnthropicConfig::default_version, (), anthropic),
        call_ensures(RoutingConfig::default, (), routing),
    ensures
        listen@ == "127.0.0.1:4000"@,
        google@ == "v1beta"@,
        anthropic@ == "2023-06-01"@,
        routing.ewma_alpha.bits == 0x3FD3_3333_3333_3333,
        routing.exploit_k.bits == 0x4008_0000_0000_0000,
        routing.error_threshold.bits == 0x3FE0_0000_0000_0000,
        routing.connect_timeout_secs == 10,
        routing.read_timeout_secs == 60,
        routing.max_body_bytes == 33_554_432,
        routing.max_buffered_bytes is None,
        routing.shutdown_timeout_secs == 30,
{
}

/// What the operator is told is the text of the problem.
pub proof fn errors_tell_their_problem(e: &ConfigError, shown: &str, r: String)
    requires
        call_ensures(ConfigError::message, (e, shown), r),
    ensures
        r@ == e@.text(shown@),
{
}

} // verus!
