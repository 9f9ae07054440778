//! One request to an upstream: where it goes, what it says, and how the
//! answer is relayed.
use crate::body;
use crate::body::RawBody;
use crate::config::{Config, ModelCandidate};
use crate::json;
use crate::json::Entries;
use crate::labels;
use crate::layout;
use crate::labels::{new_labels, parse_labels, put_label, write_labels};
use crate::model_map;
use crate::model_map::{ProviderKind, ResolvedCandidate};
use crate::text;
use crate::text::{chars_of, decimal, strip_prefix, trim_end_matches};
use crate::tracker::LatencyMode;
use vstd::prelude::*;
use vstd::utf8::*;

verus! {

/// Upstream latency in nanoseconds, tagged with what was measured:
/// time-to-first-chunk for streaming, full response time for non-streaming.
#[derive(Debug, Clone, Copy, PartialEq, Eq, Structural)]
pub enum UpstreamLatency {
    Ttfc(u128),
    Total(u128),
}

impl UpstreamLatency {
    /// A measurement of that many nanoseconds.
    pub fn measured(streaming: bool, nanos: u128) -> (r: Self)
        ensures
            r == if streaming {
                UpstreamLatency::Ttfc(nanos)
            } else {
                UpstreamLatency::Total(nanos)
            },
    {
        if streaming {
            UpstreamLatency::Ttfc(nanos)
        } else {
            UpstreamLatency::Total(nanos)
        }
    }

    /// Which average the measurement belongs to.
    pub open spec fn spec_mode(self) -> LatencyMode {
        match self {
            UpstreamLatency::Ttfc(_) => LatencyMode::Streaming,
            UpstreamLatency::Total(_) => LatencyMode::NonStreaming,
        }
    }

    /// The nanoseconds measured.
    pub open spec fn spec_nanos(self) -> u128 {
        match self {
            UpstreamLatency::Ttfc(n) => n,
            UpstreamLatency::Total(n) => n,
        }
    }

    /// Which average the measurement belongs to.
    pub fn mode(self) -> (r: LatencyMode)
        ensures
            r == self.spec_mode(),
    {
        match self {
            UpstreamLatency::Ttfc(_) => LatencyMode::Streaming,
            UpstreamLatency::Total(_) => LatencyMode::NonStreaming,
        }
    }

    /// The nanoseconds measured.
    pub fn nanos(self) -> (r: u128)
        ensures
            r == self.spec_nanos(),
    {
        match self {
            UpstreamLatency::Ttfc(n) => n,
            UpstreamLatency::Total(n) => n,
        }
    }
}

/// A request path without its leading `/v1`: every base URL already holds
/// the version prefix of its provider.
pub open spec fn effective_path(path: Seq<char>) -> Seq<char> {
    if "/v1"@.is_prefix_of(path) {
        path.skip("/v1"@.len() as int)
    } else {
        path
    }
}

/// Where a request to a candidate is sent.
pub open spec fn upstream_url(c: ResolvedCandidate, path: Seq<char>) -> Seq<char> {
    let base = text::trim_end_of(c.base_url@, '/');
    match c.kind {
        ProviderKind::AzureOpenAi { api_version } => base + "/deployments/"@ + c.model@
            + effective_path(path) + "?api-version="@ + api_version@,
        _ => base + effective_path(path),
    }
}

/// The URL of a request. Azure takes the model and the API version in it.
pub fn build_upstream_url(candidate: &ResolvedCandidate, path: &str) -> (r: String)
    ensures
        r@ == upstream_url(*candidate, path@),
        !"/v1"@.is_prefix_of(path@) ==> match candidate.kind {
            ProviderKind::ApiKey | ProviderKind::GcpAdc | ProviderKind::Anthropic { .. } => r@
                == text::trim_end_of(candidate.base_url@, '/') + path@,
            ProviderKind::AzureOpenAi { api_version } => r@ == text::trim_end_of(
                candidate.base_url@,
                '/',
            ) + "/deployments/"@ + candidate.model@ + path@ + "?api-version="@ + api_version@,
        },
        forall|rest: Seq<char>|
            path@ == #[trigger] ("/v1"@ + rest) ==> match candidate.kind {
                ProviderKind::ApiKey | ProviderKind::GcpAdc | ProviderKind::Anthropic { .. } => r@
                    == text::trim_end_of(candidate.base_url@, '/') + rest,
                ProviderKind::AzureOpenAi { api_version } => r@ == text::trim_end_of(
                    candidate.base_url@,
                    '/',
                ) + "/deployments/"@ + candidate.model@ + rest + "?api-version="@ + api_version@,
            },
{
    proof {
        urls_go_on_behind_the_version_prefix(*candidate, path@);
    }
    let base = trim_end_matches(candidate.base_url.as_str(), '/');
    let effective = match strip_prefix(path, "/v1") {
        Some(rest) => {
            assert(path@.subrange(0, "/v1"@.len() as int) =~= "/v1"@);
            assert(path@.skip("/v1"@.len() as int) =~= rest@);
            rest
        },
        None => path,
    };
    let mut url = base.to_owned();
    match &candidate.kind {
        ProviderKind::AzureOpenAi { api_version } => {
            url.append("/deployments/");
            url.append(candidate.model.as_str());
            url.append(effective);
            url.append("?api-version=");
            url.append(api_version.as_str());
        },
        _ => {
            url.append(effective);
        },
    }
    url
}

/// The headers of a request to a candidate: the content type, then the
/// authorization its provider expects. `None` when an access token is needed
/// and there is none.
pub open spec fn request_headers(c: ResolvedCandidate, token: Option<Seq<char>>) -> Option<
    Seq<(Seq<char>, Seq<char>)>,
> {
    let start = seq![("content-type"@, "application/json"@)];
    match c.kind {
        ProviderKind::ApiKey => match c.api_key {
            Some(key) => Some(start.push(("authorization"@, "Bearer "@ + key@))),
            None => Some(start),
        },
        ProviderKind::GcpAdc => match token {
            Some(t) => Some(start.push(("authorization"@, "Bearer "@ + t))),
            None => None,
        },
        ProviderKind::AzureOpenAi { .. } => match c.api_key {
            Some(key) => Some(start.push(("api-key"@, key@))),
            None => Some(start),
        },
        ProviderKind::Anthropic { version } => match c.api_key {
            Some(key) => Some(
                start.push(("x-api-key"@, key@)).push(("anthropic-version"@, version@)),
            ),
            None => Some(start.push(("anthropic-version"@, version@))),
        },
    }
}

/// The names and values of some headers.
pub open spec fn header_texts(hs: Seq<(&'static str, String)>) -> Seq<(Seq<char>, Seq<char>)> {
    hs.map_values(|h: (&'static str, String)| (h.0@, h.1@))
}

/// Whether requests to the candidate need an access token.
pub fn needs_token(candidate: &ResolvedCandidate) -> (r: bool)
    ensures
        r == (candidate.kind == ProviderKind::GcpAdc),
{
    match &candidate.kind {
        ProviderKind::GcpAdc => true,
        _ => false,
    }
}

/// The headers of a request to a candidate, given an access token where one
/// is needed. `None` when it is missing.
pub fn build_request_headers(candidate: &ResolvedCandidate, token: Option<&str>) -> (r: Option<
    Vec<(&'static str, String)>,
>)
    ensures
        ({
            let t = match token {
                Some(t) => Some(t@),
                None => None,
            };
            match r {
                Some(hs) => request_headers(*candidate, t) == Some(header_texts(hs@)),
                None => request_headers(*candidate, t) is None,
            }
        }),
{
    let mut hs: Vec<(&'static str, String)> = Vec::new();
    hs.push(("content-type", "application/json".to_owned()));
    let ghost start = seq![("content-type"@, "application/json"@)];
    assert(header_texts(hs@) =~= start);
    match &candidate.kind {
        ProviderKind::ApiKey => {
            if let Some(key) = &candidate.api_key {
                hs.push(("authorization", "Bearer ".to_owned().concat(key.as_str())));
                assert(header_texts(hs@) =~= start.push(("authorization"@, "Bearer "@ + key@)));
            }
        },
        ProviderKind::GcpAdc => match token {
            Some(t) => {
                hs.push(("authorization", "Bearer ".to_owned().concat(t)));
                assert(header_texts(hs@) =~= start.push(("authorization"@, "Bearer "@ + t@)));
            },
            None => {
                return None;
            },
        },
        ProviderKind::AzureOpenAi { .. } => {
            if let Some(key) = &candidate.api_key {
                hs.push(("api-key", key.clone()));
                assert(header_texts(hs@) =~= start.push(("api-key"@, key@)));
            }
        },
        ProviderKind::Anthropic { version } => {
            let ghost mut mid = start;
            if let Some(key) = &candidate.api_key {
                hs.push(("x-api-key", key.clone()));
                proof {
                    mid = start.push(("x-api-key"@, key@));
                }
                assert(header_texts(hs@) =~= mid);
            }
            hs.push(("anthropic-version", version.clone()));
            assert(header_texts(hs@) =~= mid.push(("anthropic-version"@, version@)));
        },
    }
    Some(hs)
}

/// Where no provider needs application credentials, no request to a resolved
/// candidate lacks a token.
pub proof fn tokens_are_only_needed_for_application_credentials(
    config: &Config,
    c: ModelCandidate,
    rc: ResolvedCandidate,
)
    requires
        model_map::resolves(config, c, rc),
        crate::config::has_provider(config.provider@, c.provider@),
        forall|i: int|
            0 <= i < config.provider@.len() ==> (#[trigger] config.provider@[i]).1.kind()
                != ProviderKind::GcpAdc,
    ensures
        request_headers(rc, None) is Some,
{
    let p = crate::config::provider_position(config.provider@, c.provider@);
    model_map::lemma_position_of_known(config.provider@, c.provider@);
    assert(config.provider@[p].1.kind() != ProviderKind::GcpAdc);
}

/// An ASCII letter in lower case, anything else as it is.
pub open spec fn lower(c: char) -> char {
    if 'A' <= c && c <= 'Z' {
        ((c as nat) + 32) as char
    } else {
        c
    }
}

/// A text in lower case, as far as ASCII goes.
pub open spec fn lower_text(s: Seq<char>) -> Seq<char> {
    s.map_values(|c: char| lower(c))
}

/// Hop-by-hop headers (RFC 9110, 7.6.1) plus origin-scoped ones; everything
/// else is relayed.
pub open spec fn stripped(name: Seq<char>) -> bool {
    let n = lower_text(name);
    ||| n == "connection"@
    ||| n == "transfer-encoding"@
    ||| n == "te"@
    ||| n == "trailer"@
    ||| n == "upgrade"@
    ||| n == "proxy-authenticate"@
    ||| n == "proxy-authorization"@
    ||| n == "set-cookie"@
    ||| n == "alt-svc"@
    ||| n == "keep-alive"@
}

/// Whether `name` is `other`, up to the case of ASCII letters, where `other`
/// is in lower case.
pub(crate) fn same_header(name: &str, other: &str) -> (r: bool)
    ensures
        r == (lower_text(name@) == other@),
{
    let a = chars_of(name);
    let b = chars_of(other);
    if a.len() != b.len() {
        return false;
    }
    let mut i: usize = 0;
    while i < a.len()
        invariant
            a@ == name@,
            b@ == other@,
            a@.len() == b@.len(),
            i <= a@.len(),
            forall|j: int| 0 <= j < i ==> lower(#[trigger] name@[j]) == other@[j],
        decreases a@.len() - i,
    {
        let c = a[i];
        let l: char = if 'A' <= c && c <= 'Z' {
            ((c as u8) + 32) as char
        } else {
            c
        };
        if l != b[i] {
            assert(lower_text(name@)[i as int] != other@[i as int]);
            return false;
        }
        i += 1;
    }
    assert(lower_text(name@) =~= other@);
    true
}

fn is_stripped(name: &str) -> (r: bool)
    ensures
        r == stripped(name@),
{
    same_header(name, "connection") || same_header(name, "transfer-encoding") || same_header(
        name,
        "te",
    ) || same_header(name, "trailer") || same_header(name, "upgrade") || same_header(
        name,
        "proxy-authenticate",
    ) || same_header(name, "proxy-authorization") || same_header(name, "set-cookie")
        || same_header(name, "alt-svc") || same_header(name, "keep-alive")
}

/// The names and values of some response headers.
pub open spec fn header_views(hs: Seq<(String, Vec<u8>)>) -> Seq<(Seq<char>, Seq<u8>)> {
    hs.map_values(|h: (String, Vec<u8>)| (h.0@, h.1@))
}

/// The headers that `keep` accepts, in order.
pub open spec fn kept_headers(
    hs: Seq<(Seq<char>, Seq<u8>)>,
    keep: spec_fn(Seq<char>) -> bool,
) -> Seq<(Seq<char>, Seq<u8>)>
    decreases hs.len(),
{
    if hs.len() == 0 {
        seq![]
    } else {
        let rest = kept_headers(hs.drop_last(), keep);
        if keep(hs.last().0) {
            rest.push(hs.last())
        } else {
            rest
        }
    }
}

/// The predicate for headers that are relayed.
pub open spec fn relayed() -> spec_fn(Seq<char>) -> bool {
    |name: Seq<char>| !stripped(name)
}

/// A copy of a header value.
pub(crate) fn copy_bytes(bytes: &Vec<u8>) -> (r: Vec<u8>)
    ensures
        r@ == bytes@,
{
    let mut r: Vec<u8> = Vec::new();
    r.extend_from_slice(bytes.as_slice());
    assert(r@ =~= bytes@);
    r
}

/// The upstream's headers that are passed on, in order: all but the stripped
/// ones, repeated headers included.
pub fn sanitize_response_headers(upstream: &Vec<(String, Vec<u8>)>) -> (r: Vec<(String, Vec<u8>)>)
    ensures
        header_views(r@) == kept_headers(header_views(upstream@), relayed()),
{
    let ghost hs = header_views(upstream@);
    let mut out: Vec<(String, Vec<u8>)> = Vec::new();
    let mut i: usize = 0;
    assert(header_views(out@) =~= kept_headers(hs.take(0), relayed()));
    while i < upstream.len()
        invariant
            hs == header_views(upstream@),
            i <= upstream@.len(),
            header_views(out@) == kept_headers(hs.take(i as int), relayed()),
        decreases upstream@.len() - i,
    {
        proof {
            assert(hs.take(i + 1).drop_last() =~= hs.take(i as int));
            assert(hs.take(i + 1).last() == (upstream@[i as int].0@, upstream@[i as int].1@));
        }
        if !is_stripped(upstream[i].0.as_str()) {
            let ghost before = out@;
            out.push((upstream[i].0.clone(), copy_bytes(&upstream[i].1)));
            assert(header_views(out@) =~= header_views(before).push(
                (upstream@[i as int].0@, upstream@[i as int].1@),
            ));
        }
        i += 1;
    }
    assert(hs.take(i as int) =~= hs);
    out
}

/// A header is relayed exactly as often as it came, with the values it came
/// with, unless it is a stripped one, which never gets through.
pub proof fn headers_relayed_or_stripped(hs: Seq<(Seq<char>, Seq<u8>)>, h: (Seq<char>, Seq<u8>))
    ensures
        kept_headers(hs, relayed()).contains(h) <==> hs.contains(h) && !stripped(h.0),
        kept_headers(hs, relayed()).to_multiset().count(h) == if stripped(h.0) {
            0
        } else {
            hs.to_multiset().count(h)
        },
    decreases hs.len(),
{
    broadcast use vstd::seq_lib::group_to_multiset_ensures;

    let out = kept_headers(hs, relayed());
    if hs.len() > 0 {
        let init = hs.drop_last();
        headers_relayed_or_stripped(init, h);
        assert(hs =~= init.push(hs.last()));
    }
    assert(out.contains(h) <==> out.to_multiset().count(h) > 0);
    assert(hs.contains(h) <==> hs.to_multiset().count(h) > 0);
}

/// The labels a client sent, if they are a JSON object.
pub open spec fn client_labels(es: Entries) -> Map<Seq<char>, Seq<char>> {
    match body::lookup(es, "labels"@) {
        Some(raw) => match labels::object_value(raw) {
            Some(m) => m,
            None => labels::no_labels(),
        },
        None => labels::no_labels(),
    }
}

/// Labels with the sidecar's own put over them, in order.
pub open spec fn merged(
    m: Map<Seq<char>, Seq<char>>,
    own: Seq<(Seq<char>, Seq<char>)>,
) -> Map<Seq<char>, Seq<char>>
    decreases own.len(),
{
    if own.len() == 0 {
        m
    } else {
        merged(m, own.drop_last()).insert(own.last().0, json::quoted(own.last().1))
    }
}

/// The fields of a body with the model's real name in them.
pub open spec fn with_model(es: Entries, model: Seq<char>) -> Entries {
    body::assign(es, "model"@, json::quoted(model))
}

/// Whether `out` is the body `es` with `labels` set to the object of `m`.
pub open spec fn labelled(es: Entries, m: Map<Seq<char>, Seq<char>>, out: Entries) -> bool {
    exists|s: Seq<char>| #[trigger]
        labels::is_object_of(s, m) && out == body::assign(es, "labels"@, s)
}

/// Whether `out` is the body `es`, prepared for a candidate: the model is
/// named as the upstream knows it and, where there are labels to attribute
/// to, `labels` is the client's own object with the sidecar's keys over it.
pub open spec fn prepared(
    es: Entries,
    model: Seq<char>,
    own: Option<Seq<(Seq<char>, Seq<char>)>>,
    out: Entries,
) -> bool {
    let start = with_model(es, model);
    match own {
        None => out == start,
        Some(ls) => labelled(start, merged(client_labels(start), ls), out),
    }
}

/// The names and values of optional labels.
pub open spec fn own_labels(ls: Option<&Vec<(String, String)>>) -> Option<
    Seq<(Seq<char>, Seq<char>)>,
> {
    match ls {
        Some(v) => Some(model_map::label_texts(v@)),
        None => None,
    }
}

/// The names and values of the labels a candidate adds.
pub open spec fn candidate_labels(c: ResolvedCandidate) -> Option<Seq<(Seq<char>, Seq<char>)>> {
    match c.attribution_labels {
        Some(v) => Some(model_map::label_texts(v@)),
        None => None,
    }
}

/// Setting a field to a value that can be read back keeps all of them so.
proof fn lemma_assign_values(es: Entries, base: Entries, key: Seq<char>, raw: Seq<char>)
    requires
        forall|i: int| 0 <= i < es.len() ==> json::value_of(#[trigger] es[i].1, base) || es == base,
        json::value_of(raw, base),
    ensures
        forall|i: int|
            0 <= i < body::assign(es, key, raw).len() ==> json::value_of(
                #[trigger] body::assign(es, key, raw)[i].1,
                base,
            ),
{
    let out = body::assign(es, key, raw);
    body::lemma_position_first(es, key);
    assert forall|i: int| 0 <= i < out.len() implies json::value_of(#[trigger] out[i].1, base) by {
        if out[i].1 != raw {
            assert(out[i].1 == es[i].1);
            assert(es == base ==> base[i].1 == out[i].1);
        }
    }
}

/// Replace the model alias with the resolved upstream model name, and merge
/// sidecar attribution labels into `labels` (sidecar wins on key collision;
/// disjoint client keys preserved; `labels` of another shape overwritten).
pub fn prepare_body(
    body: &mut RawBody<'_>,
    real_model: &str,
    attribution_labels: Option<&Vec<(String, String)>>,
)
    ensures
        prepared(old(body)@, real_model@, own_labels(attribution_labels), final(body)@),
        body::lookup(final(body)@, "model"@) matches Some(raw) && json::string_value(raw) == Some(
            real_model@,
        ),
        json::rewrites(final(body)@, body::keys_of(old(body)@), old(body)@),
        final(body).layout() == layout::extended(
            old(body).layout(),
            body::added(old(body)@.len() as int, final(body)@),
        ),
{
    let model = json::quote(real_model);
    let ghost raw_model = model@;
    body.set("model", model);
    let ghost start = body@;
    proof {
        assert(json::value_of(raw_model, old(body)@));
        body::set_then_get(old(body)@, "model"@, raw_model);
        assert(body::keys_of(start).take(old(body)@.len() as int) =~= body::keys_of(old(body)@));
        lemma_assign_values(old(body)@, old(body)@, "model"@, raw_model);
    }
    if let Some(own) = attribution_labels {
        let ghost ls = model_map::label_texts(own@);
        let mut map = match body.get("labels") {
            Some(raw) => match parse_labels(raw) {
                Some(m) => m,
                None => new_labels(),
            },
            None => new_labels(),
        };
        let ghost client = client_labels(start);
        let mut i: usize = 0;
        assert(labels::label_map(map) == merged(client, ls.take(0)));
        while i < own.len()
            invariant
                i <= own@.len(),
                ls == model_map::label_texts(own@),
                labels::label_map(map) == merged(client, ls.take(i as int)),
            decreases own@.len() - i,
        {
            proof {
                assert(ls.take(i + 1).drop_last() =~= ls.take(i as int));
                assert(ls.take(i + 1).last() == (own@[i as int].0@, own@[i as int].1@));
            }
            put_label(&mut map, own[i].0.as_str(), own[i].1.as_str());
            i += 1;
        }
        assert(ls.take(i as int) =~= ls);
        let written = write_labels(&map);
        assert(labels::is_object_of(written@, merged(client, ls)));
        let ghost raw_labels = written@;
        body.set("labels", written);
        proof {
            body::set_then_get(start, "labels"@, raw_labels);
            assert(labels::is_object_of(raw_labels, labels::label_map(map)));
            lemma_assign_values(start, old(body)@, "labels"@, raw_labels);
            reveal_strlit("model");
            reveal_strlit("labels");
            assert("model"@.len() == 5 && "labels"@.len() == 6);
            assert(body::lookup(body@, "model"@) == body::lookup(start, "model"@));
            let n = old(body)@.len() as int;
            let m = start.len() as int;
            layout::extensions_add_up(
                old(body).layout(),
                body::added(n, start),
                body::added(m, body@),
            );
            assert(body::keys_of(body@).take(m) =~= body::keys_of(start));
            assert(body::added(n, start) + body::added(m, body@) =~= body::added(n, body@));
            assert(body::keys_of(body@).take(n) =~= body::keys_of(start).take(n));
        }
        assert(labelled(start, merged(client, ls), body@));
    }
}

/// The serialized outbound body as one buffer. It is handed out once, so that
/// no second copy is kept for replay and the bytes are released as soon as
/// the upload completes.
#[derive(Debug)]
pub struct OutboundBody {
    data: Option<Vec<u8>>,
}

impl View for OutboundBody {
    type V = Option<Seq<u8>>;

    closed spec fn view(&self) -> Option<Seq<u8>> {
        match self.data {
            Some(v) => Some(v@),
            None => None,
        }
    }
}

impl OutboundBody {
    /// A body that has not been sent yet.
    pub fn new(bytes: Vec<u8>) -> (r: Self)
        ensures
            r@ == Some(bytes@),
    {
        OutboundBody { data: Some(bytes) }
    }

    /// The whole buffer as a single frame; after it the body is at its end.
    pub fn take_frame(&mut self) -> (r: Option<Vec<u8>>)
        ensures
            match r {
                Some(v) => old(self)@ == Some(v@),
                None => old(self)@ is None,
            },
            final(self)@ is None,
    {
        self.data.take()
    }

    /// Whether the buffer has been handed out.
    pub fn is_end_stream(&self) -> (r: bool)
        ensures
            r == (self@ is None),
    {
        self.data.is_none()
    }

    /// The exact number of bytes still to be sent, for the content length.
    pub fn remaining(&self) -> (r: u64)
        ensures
            r == match self@ {
                Some(bytes) => bytes.len(),
                None => 0,
            },
    {
        match &self.data {
            Some(v) => v.len() as u64,
            None => 0,
        }
    }

    /// The bytes still to be sent.
    pub fn data(&self) -> (r: Option<&[u8]>)
        ensures
            match r {
                Some(v) => self@ == Some(v@),
                None => self@ is None,
            },
    {
        match &self.data {
            Some(v) => Some(v.as_slice()),
            None => None,
        }
    }
}

/// The body `out`, written where `es` was laid out.
pub open spec fn rewritten(es: Entries, l: layout::Layout, out: Entries) -> Seq<u8> {
    body::written(layout::extended(l, body::added(es.len() as int, out)), out)
}

/// Whether `sent` is the body `es`, laid out as `l`, as it goes out to a
/// candidate.
pub open spec fn outbound(
    es: Entries,
    l: layout::Layout,
    model: Seq<char>,
    own: Option<Seq<(Seq<char>, Seq<char>)>>,
    sent: Seq<u8>,
) -> bool {
    exists|out: Entries| #[trigger]
        prepared(es, model, own, out) && sent == rewritten(es, l, out)
}

/// Whether `sent` is the body `es`, laid out as `l`, as it goes out to a
/// candidate, and is read back as the fields it was prepared to have, in their
/// order.
pub open spec fn outbound_read_back(
    es: Entries,
    l: layout::Layout,
    model: Seq<char>,
    own: Option<Seq<(Seq<char>, Seq<char>)>>,
    sent: Seq<u8>,
) -> bool {
    exists|out: Entries|
        {
            &&& #[trigger] prepared(es, model, own, out)
            &&& sent == rewritten(es, l, out)
            &&& json::object_entries(sent) == Ok::<Entries, (bool, Seq<char>)>(out)
        }
}

/// Rewrite the body for the chosen candidate and serialize it for sending.
/// Consumes the parsed body, which borrows the raw request buffer: the caller
/// can drop that buffer as soon as this returns, leaving only the outbound
/// copy.
pub fn prepare_outbound(
    body: RawBody<'_>,
    real_model: &str,
    attribution_labels: Option<&Vec<(String, String)>>,
) -> (r: OutboundBody)
    ensures
        r@ matches Some(sent) && outbound(
            body@,
            body.layout(),
            real_model@,
            own_labels(attribution_labels),
            sent,
        ),
        body::distinct_keys(body@) && json::reads_back(
            body.layout(),
            body::keys_of(body@),
            body@,
        ) ==> outbound_read_back(
            body@,
            body.layout(),
            real_model@,
            own_labels(attribution_labels),
            r@->0,
        ),
{
    let mut body = body;
    let ghost es = body@;
    let ghost l = body.layout();
    prepare_body(&mut body, real_model, attribution_labels);
    let r = OutboundBody::new(body.to_bytes());
    proof {
        assert(prepared(es, real_model@, own_labels(attribution_labels), body@));
        assert(r@ == Some(rewritten(es, l, body@)));
        if body::distinct_keys(es) {
            other_fields_pass_through(es, real_model@, own_labels(attribution_labels), body@);
            body::distinct_fields_stay(body@);
        }
    }
    r
}

/// The bytes of a request with the model's value replaced and, where there
/// are labels to attribute to, the `labels` replaced too, or added right
/// behind the last value. No other byte changes.
pub open spec fn forwarded(
    bytes: Seq<u8>,
    es: Entries,
    model: Seq<char>,
    own: Option<Seq<(Seq<char>, Seq<char>)>>,
    sent: Seq<u8>,
) -> bool {
    let ms = layout::members(bytes)->0;
    let m = ms[body::position(es, "model"@)];
    let name = encode_utf8(json::quoted(model));
    match own {
        None => sent == layout::spliced(bytes, m.start, m.end, name),
        Some(ls) => exists|s: Seq<char>| #[trigger]
            labels::is_object_of(s, merged(client_labels(with_model(es, model)), ls)) && sent
                == relabelled(bytes, es, name, encode_utf8(s)),
    }
}

/// The bytes of a request with the values of `model` and `labels` replaced,
/// or `labels` added right behind the last value.
pub open spec fn relabelled(
    bytes: Seq<u8>,
    es: Entries,
    model: Seq<u8>,
    labels: Seq<u8>,
) -> Seq<u8> {
    let ms = layout::members(bytes)->0;
    let m = ms[body::position(es, "model"@)];
    let at = body::position(es, "labels"@);
    let l = ms[at];
    if at >= ms.len() {
        let added = layout::added_lead(ms.len() as int, "labels"@) + labels;
        layout::spliced(
            layout::spliced(bytes, ms.last().end, ms.last().end, added),
            m.start,
            m.end,
            model,
        )
    } else if m.start < l.start {
        layout::spliced(layout::spliced(bytes, l.start, l.end, labels), m.start, m.end, model)
    } else {
        layout::spliced(layout::spliced(bytes, m.start, m.end, model), l.start, l.end, labels)
    }
}

/// A request without repeated keys is forwarded byte for byte, formatting and
/// all, but for the value of `model` and, where there are labels to attribute
/// to, that of `labels`.
pub proof fn only_model_and_labels_change(
    bytes: Seq<u8>,
    es: Entries,
    model: Seq<char>,
    own: Option<Seq<(Seq<char>, Seq<char>)>>,
    sent: Seq<u8>,
)
    requires
        json::read_as(bytes, es),
        (layout::members(bytes)->0).len() == es.len(),
        body::lookup(es, "model"@) is Some,
        outbound(es, body::layout_for(bytes, es), model, own, sent),
    ensures
        forwarded(bytes, es, model, own, sent),
{
    let l = body::layout_for(bytes, es);
    let ms = layout::members(bytes)->0;
    let out = choose|out: Entries| #[trigger]
        prepared(es, model, own, out) && sent == rewritten(es, l, out);
    let start = with_model(es, model);
    let name = json::quoted(model);
    let k = body::position(es, "model"@);
    body::fields_are_written_as_they_came(bytes, es);
    body::lemma_position_first(es, "model"@);
    body::set_then_get(es, "model"@, name);
    layout::extensions_add_up(l, seq![], seq![]);
    let values = layout::values_at(bytes, ms).update(k, encode_utf8(name));
    assert(body::values_of(start) =~= values);
    match own {
        None => {
            assert(body::added(es.len() as int, out) =~= seq![]);
            layout::one_value_is_spliced(bytes, ms, k, encode_utf8(name));
        },
        Some(ls) => {
            let m = merged(client_labels(start), ls);
            assert(labelled(start, m, out));
            let s = choose|s: Seq<char>| #[trigger]
                labels::is_object_of(s, m) && out == body::assign(start, "labels"@, s);
            let at = body::position(start, "labels"@);
            body::lemma_position_first(start, "labels"@);
            reveal_strlit("model");
            reveal_strlit("labels");
            assert("model"@.len() == 5 && "labels"@.len() == 6);
            assert(at == body::position(es, "labels"@)) by {
                assert forall|j: int| 0 <= j < at implies (#[trigger] es[j]).0 != "labels"@ by {
                    assert(start[j].0 == es[j].0);
                }
                body::lemma_position(es, "labels"@, at);
            }
            layout::members_are_in_order(bytes);
            if at >= es.len() {
                assert(body::added(es.len() as int, out) =~= seq!["labels"@]);
                assert(body::values_of(out) =~= values.push(encode_utf8(s)));
                layout::one_value_is_spliced_and_one_added(
                    bytes,
                    ms,
                    k,
                    encode_utf8(name),
                    "labels"@,
                    encode_utf8(s),
                );
            } else {
                assert(body::added(es.len() as int, out) =~= seq![]);
                assert(start[at].0 == "labels"@ && start[k].0 == "model"@);
                let first = encode_utf8(name);
                let second = encode_utf8(s);
                assert(body::values_of(out) =~= values.update(at, second));
                if k < at {
                    assert(ms[k].end < ms[at].key);
                    layout::two_values_are_spliced(bytes, ms, k, first, at, second);
                } else {
                    assert(ms[at].end < ms[k].key);
                    layout::two_values_are_spliced(bytes, ms, at, second, k, first);
                    assert(values.update(at, second) =~= layout::values_at(bytes, ms).update(
                        at,
                        second,
                    ).update(k, first));
                }
            }
            assert(sent == relabelled(bytes, es, encode_utf8(name), encode_utf8(s)));
        },
    }
}

/// Transparent passthrough: the model reads as the real one, every field but
/// `model` and `labels` keeps its place and its raw value, the fields stay in
/// order, and without attribution `labels` is no exception.
pub proof fn other_fields_pass_through(
    es: Entries,
    model: Seq<char>,
    own: Option<Seq<(Seq<char>, Seq<char>)>>,
    out: Entries,
)
    requires
        prepared(es, model, own, out),
    ensures
        body::lookup(out, "model"@) == Some(json::quoted(model)),
        es.len() <= out.len(),
        forall|i: int| 0 <= i < es.len() ==> (#[trigger] out[i]).0 == es[i].0,
        forall|i: int|
            0 <= i < es.len() && es[i].0 != "model"@ && (own is Some ==> es[i].0 != "labels"@)
                ==> #[trigger] out[i] == es[i],
        forall|key: Seq<char>|
            key != "model"@ && (own is Some ==> key != "labels"@) ==> body::lookup(out, key)
                == #[trigger] body::lookup(es, key),
        forall|i: int|
            es.len() <= i < out.len() ==> (#[trigger] out[i]).0 == "model"@ || out[i].0
                == "labels"@,
        body::distinct_keys(es) ==> body::distinct_keys(out),
{
    let start = with_model(es, model);
    body::set_then_get(es, "model"@, json::quoted(model));
    reveal_strlit("model");
    reveal_strlit("labels");
    assert("model"@.len() == 5 && "labels"@.len() == 6);
    if let Some(ls) = own {
        let s = choose|s: Seq<char>| #[trigger]
            labels::is_object_of(s, merged(client_labels(start), ls)) && out == body::assign(
                start,
                "labels"@,
                s,
            );
        assert(labelled(start, merged(client_labels(start), ls), out));
        body::set_then_get(start, "labels"@, s);
        assert(body::lookup(out, "model"@) == body::lookup(start, "model"@));
        assert forall|i: int| 0 <= i < es.len() implies (#[trigger] out[i]).0 == es[i].0 by {
            assert(start[i].0 == es[i].0);
        }
        assert forall|i: int|
            0 <= i < es.len() && es[i].0 != "model"@ && es[i].0 != "labels"@ implies
            #[trigger] out[i] == es[i] by {
            assert(start[i] == es[i]);
            assert(body::assign(start, "labels"@, s)[i] == start[i]);
        }
        assert forall|key: Seq<char>| key != "model"@ && key != "labels"@ implies body::lookup(
            out,
            key,
        ) == #[trigger] body::lookup(es, key) by {
            assert(body::lookup(start, key) == body::lookup(es, key));
        }
        assert forall|i: int| es.len() <= i < out.len() implies (#[trigger] out[i]).0 == "model"@
            || out[i].0 == "labels"@ by {
            if i < start.len() {
                assert(body::assign(start, "labels"@, s)[i].0 == start[i].0);
            }
        }
    }
}

/// A request is sent exactly as it came, byte for byte, where there is nothing
/// to attribute to and the model is named as the client named it.
pub proof fn unchanged_model_passes_unchanged(
    bytes: Seq<u8>,
    es: Entries,
    model: Seq<char>,
    sent: Seq<u8>,
)
    requires
        json::read_as(bytes, es),
        (layout::members(bytes)->0).len() == es.len(),
        body::lookup(es, "model"@) == Some(json::quoted(model)),
        outbound(es, body::layout_for(bytes, es), model, None, sent),
    ensures
        sent == bytes,
{
    let out = with_model(es, model);
    body::lemma_position_first(es, "model"@);
    assert(out =~= es);
    assert(body::added(es.len() as int, es) =~= seq![]);
    layout::extensions_add_up(body::layout_for(bytes, es), seq![], seq![]);
    body::fields_are_written_as_they_came(bytes, es);
}

/// There is one way to prepare a body, and so one text to send.
pub proof fn bodies_are_prepared_in_one_way(
    es: Entries,
    model: Seq<char>,
    own: Option<Seq<(Seq<char>, Seq<char>)>>,
    a: Entries,
    b: Entries,
)
    requires
        prepared(es, model, own, a),
        prepared(es, model, own, b),
    ensures
        a == b,
{
    if let Some(ls) = own {
        let start = with_model(es, model);
        let m = merged(client_labels(start), ls);
        assert(labelled(start, m, a) && labelled(start, m, b));
        let s = choose|s: Seq<char>| #[trigger]
            labels::is_object_of(s, m) && a == body::assign(start, "labels"@, s);
        let t = choose|t: Seq<char>| #[trigger]
            labels::is_object_of(t, m) && b == body::assign(start, "labels"@, t);
        labels::a_map_is_written_in_one_way(s, t, m);
    }
}

/// Sidecar labels win over the client's.
pub proof fn sidecar_labels_win(
    client: Map<Seq<char>, Seq<char>>,
    own: Seq<(Seq<char>, Seq<char>)>,
    i: int,
)
    requires
        0 <= i < own.len(),
        forall|j: int| i < j < own.len() ==> (#[trigger] own[j]).0 != own[i].0,
    ensures
        merged(client, own).contains_key(own[i].0),
        merged(client, own)[own[i].0] == json::quoted(own[i].1),
    decreases own.len(),
{
    let init = own.drop_last();
    if i < own.len() - 1 {
        assert(own[own.len() - 1].0 != own[i].0);
        assert forall|j: int| i < j < init.len() implies (#[trigger] init[j]).0 != init[i].0 by {
            assert(init[j] == own[j]);
        }
        sidecar_labels_win(client, init, i);
    }
}

/// Client labels that the sidecar does not set stay as they are, and no
/// others appear.
pub proof fn disjoint_client_labels_stay(
    client: Map<Seq<char>, Seq<char>>,
    own: Seq<(Seq<char>, Seq<char>)>,
    key: Seq<char>,
)
    requires
        forall|i: int| 0 <= i < own.len() ==> (#[trigger] own[i]).0 != key,
    ensures
        merged(client, own).contains_key(key) == client.contains_key(key),
        client.contains_key(key) ==> merged(client, own)[key] == client[key],
    decreases own.len(),
{
    if own.len() > 0 {
        let init = own.drop_last();
        assert(own[own.len() - 1].0 != key);
        assert forall|i: int| 0 <= i < init.len() implies (#[trigger] init[i]).0 != key by {
            assert(init[i] == own[i]);
        }
        disjoint_client_labels_stay(client, init, key);
    }
}

/// What a relayed stream sends for one item of the upstream's.
#[derive(Debug, PartialEq, Eq)]
pub enum RelayFrame<T> {
    /// A chunk, as it came.
    Chunk(T),
    /// The event that says the upstream broke off.
    ErrorEvent,
}

/// The relay of an upstream's stream to the client.
#[derive(Debug)]
pub struct Relay {
    errored: bool,
}

/// What is relayed of a stream: everything up to the first error, an error
/// event in its place, and nothing behind it.
pub open spec fn relay_of<T, E>(items: Seq<Result<T, E>>) -> Seq<RelayFrame<T>>
    decreases items.len(),
{
    if items.len() == 0 {
        seq![]
    } else {
        match items[0] {
            Ok(chunk) => seq![RelayFrame::Chunk(chunk)] + relay_of(items.skip(1)),
            Err(_) => seq![RelayFrame::ErrorEvent],
        }
    }
}

impl Relay {
    /// Whether an error has been relayed.
    pub closed spec fn broken(&self) -> bool {
        self.errored
    }

    /// The relay of a stream that is about to start.
    pub fn new() -> (r: Self)
        ensures
            !r.broken(),
    {
        Relay { errored: false }
    }

    /// What to send for the next item; `None` ends the stream.
    pub fn step<T, E>(&mut self, item: Result<T, E>) -> (r: Option<RelayFrame<T>>)
        ensures
            old(self).broken() ==> r is None && final(self).broken(),
            !old(self).broken() ==> match item {
                Ok(chunk) => r == Some(RelayFrame::Chunk(chunk)) && !final(self).broken(),
                Err(_) => r == Some(RelayFrame::<T>::ErrorEvent) && final(self).broken(),
            },
    {
        if self.errored {
            return None;
        }
        match item {
            Ok(chunk) => Some(RelayFrame::Chunk(chunk)),
            Err(_) => {
                self.errored = true;
                Some(RelayFrame::ErrorEvent)
            },
        }
    }

    /// Relays a whole stream at once.
    pub fn relay_all<T, E>(items: Vec<Result<T, E>>) -> (r: Vec<RelayFrame<T>>)
        ensures
            r@ == relay_of(items@),
    {
        let mut relay = Relay::new();
        let mut out: Vec<RelayFrame<T>> = Vec::new();
        let ghost all = items@;
        let ghost mut n: int = 0;
        assert(all.skip(0) =~= all);
        for item in it: items
            invariant
                it.seq() == all,
                n == it.index(),
                0 <= n <= all.len(),
                !relay.broken() ==> relay_of(all) == out@ + relay_of(all.skip(n)),
                relay.broken() ==> relay_of(all) == out@,
        {
            let ghost before = out@;
            let ghost was = relay.broken();
            proof {
                assert(all.skip(n)[0] == all[n]);
                assert(all.skip(n).skip(1) =~= all.skip(n + 1));
            }
            if let Some(frame) = relay.step(item) {
                out.push(frame);
                proof {
                    if !was {
                        assert(out@ =~= before + seq![frame]);
                        assert(before + (seq![frame] + relay_of(all.skip(n + 1))) =~= (before
                            + seq![frame]) + relay_of(all.skip(n + 1)));
                    }
                }
            }
            proof {
                n = n + 1;
            }
        }
        proof {
            assert(all.skip(all.len() as int) =~= Seq::<Result<T, E>>::empty());
            assert(out@ + Seq::<RelayFrame<T>>::empty() =~= out@);
        }
        out
    }
}

/// A stream that does not break is relayed whole and unchanged; one that does
/// is relayed up to the break, followed by one error event.
pub proof fn streams_are_relayed_up_to_the_first_error<T, E>(items: Seq<Result<T, E>>, k: int)
    requires
        0 <= k <= items.len(),
        forall|i: int| 0 <= i < k ==> #[trigger] items[i] is Ok,
        k < items.len() ==> items[k] is Err,
    ensures
        relay_of(items).len() == if k < items.len() {
            k + 1
        } else {
            k
        },
        forall|i: int|
            0 <= i < k ==> #[trigger] relay_of(items)[i] == RelayFrame::<T>::Chunk(items[i]->Ok_0),
        k < items.len() ==> relay_of(items)[k] == RelayFrame::<T>::ErrorEvent,
    decreases items.len(),
{
    if items.len() > 0 && k > 0 {
        let rest = items.skip(1);
        assert(items[0] is Ok);
        assert forall|i: int| 0 <= i < k - 1 implies #[trigger] rest[i] is Ok by {
            assert(rest[i] == items[i + 1]);
        }
        if k < items.len() {
            assert(rest[k - 1] == items[k]);
        }
        streams_are_relayed_up_to_the_first_error(rest, k - 1);
        assert forall|i: int| 0 <= i < k implies #[trigger] relay_of(items)[i] == RelayFrame::<
            T,
        >::Chunk(items[i]->Ok_0) by {
            if i > 0 {
                assert(relay_of(items)[i] == relay_of(rest)[i - 1]);
                assert(rest[i - 1] == items[i]);
            }
        }
    }
}

/// The server-sent event that takes the place of the rest of a broken stream.
pub fn stream_error_event() -> (r: &'static str)
    ensures
        r@ == "data: {\"error\":{\"message\":\"upstream stream error\",\"type\":\"proxy_error\"}}\n\n"@,
{
    "data: {\"error\":{\"message\":\"upstream stream error\",\"type\":\"proxy_error\"}}\n\n"
}

/// The chunk a streamed response starts with: the first of the upstream's, an
/// empty one if its stream is empty, or the error that took its place.
pub fn first_chunk<T, E>(first: Option<Result<T, E>>, empty: T) -> (r: Result<T, E>)
    ensures
        r == match first {
            Some(item) => item,
            None => Ok(empty),
        },
{
    match first {
        Some(Ok(chunk)) => Ok(chunk),
        Some(Err(e)) => Err(e),
        None => Ok(empty),
    }
}

/// What is said of a response that is too large.
pub open spec fn over_cap_text(cap: nat) -> Seq<char> {
    "upstream response exceeds the "@ + text::decimal_text(cap) + " byte cap"@
}

/// A non-streaming response as it is read, never beyond its cap.
#[derive(Debug)]
pub struct CappedBody {
    cap: usize,
    buf: Vec<u8>,
}

impl View for CappedBody {
    type V = Seq<u8>;

    closed spec fn view(&self) -> Seq<u8> {
        self.buf@
    }
}

impl CappedBody {
    /// The most bytes the body may hold.
    pub closed spec fn limit(&self) -> nat {
        self.cap as nat
    }

    /// What was read is within the cap.
    pub open spec fn within(&self) -> bool {
        self@.len() <= self.limit()
    }

    fn over_cap(cap: usize) -> (r: String)
        ensures
            r@ == over_cap_text(cap as nat),
    {
        "upstream response exceeds the ".to_owned().concat(decimal(cap as u64).as_str()).concat(
            " byte cap",
        )
    }

    /// An empty body, refused at once if the response declares a length over
    /// the cap.
    pub fn new(cap: usize, declared: Option<u64>) -> (r: Result<Self, String>)
        ensures
            match r {
                Ok(b) => {
                    &&& declared matches Some(n) ==> n <= cap
                    &&& b@ == Seq::<u8>::empty()
                    &&& b.limit() == cap
                    &&& b.within()
                },
                Err(e) => (declared matches Some(n) && n > cap) && e@ == over_cap_text(cap as nat),
            },
    {
        if let Some(n) = declared {
            if n > cap as u64 {
                return Err(CappedBody::over_cap(cap));
            }
        }
        Ok(CappedBody { cap, buf: Vec::new() })
    }

    /// Takes in a chunk, unless it would go over the cap.
    pub fn push(&mut self, chunk: &[u8]) -> (r: Result<(), String>)
        requires
            old(self).within(),
        ensures
            final(self).within(),
            final(self).limit() == old(self).limit(),
            match r {
                Ok(()) => old(self)@.len() + chunk@.len() <= old(self).limit() && final(self)@
                    == old(self)@ + chunk@,
                Err(e) => old(self)@.len() + chunk@.len() > old(self).limit() && final(self)@
                    == old(self)@ && e@ == over_cap_text(old(self).limit()),
            },
    {
        if chunk.len() > self.cap - self.buf.len() {
            return Err(CappedBody::over_cap(self.cap));
        }
        self.buf.extend_from_slice(chunk);
        assert(self.buf@ =~= old(self)@ + chunk@);
        Ok(())
    }

    /// What was read.
    pub fn into_bytes(self) -> (r: Vec<u8>)
        ensures
            r@ == self@,
    {
        self.buf
    }
}

/// The chunks of a response, joined.
pub open spec fn joined(chunks: Seq<Seq<u8>>) -> Seq<u8>
    decreases chunks.len(),
{
    if chunks.len() == 0 {
        seq![]
    } else {
        joined(chunks.drop_last()) + chunks.last()
    }
}

/// What reading the chunks one by one under a cap gives.
pub open spec fn read_under(cap: nat, chunks: Seq<Seq<u8>>) -> Option<Seq<u8>>
    decreases chunks.len(),
{
    if chunks.len() == 0 {
        Some(seq![])
    } else {
        match read_under(cap, chunks.drop_last()) {
            Some(sofar) => if sofar.len() + chunks.last().len() > cap {
                None
            } else {
                Some(sofar + chunks.last())
            },
            None => None,
        }
    }
}

/// A response is read whole exactly when all of it fits the cap.
pub proof fn responses_are_read_whole_or_refused(cap: nat, chunks: Seq<Seq<u8>>)
    ensures
        read_under(cap, chunks) == if joined(chunks).len() <= cap {
            Some(joined(chunks))
        } else {
            None
        },
    decreases chunks.len(),
{
    if chunks.len() > 0 {
        responses_are_read_whole_or_refused(cap, chunks.drop_last());
    }
}

/// A path is appended to the base URL, less its trailing slashes, from behind
/// its `/v1` on where it has one, whoever the provider is. Azure has the model
/// in front of it and the API version behind it.
pub proof fn urls_go_on_behind_the_version_prefix(c: ResolvedCandidate, path: Seq<char>)
    ensures
        !"/v1"@.is_prefix_of(path) ==> match c.kind {
            ProviderKind::ApiKey | ProviderKind::GcpAdc | ProviderKind::Anthropic { .. } =>
                upstream_url(c, path) == text::trim_end_of(c.base_url@, '/') + path,
            ProviderKind::AzureOpenAi { api_version } => upstream_url(c, path)
                == text::trim_end_of(c.base_url@, '/') + "/deployments/"@ + c.model@ + path
                + "?api-version="@ + api_version@,
        },
        forall|rest: Seq<char>|
            path == #[trigger] ("/v1"@ + rest) ==> match c.kind {
                ProviderKind::ApiKey | ProviderKind::GcpAdc | ProviderKind::Anthropic { .. } =>
                    upstream_url(c, path) == text::trim_end_of(c.base_url@, '/') + rest,
                ProviderKind::AzureOpenAi { api_version } => upstream_url(c, path)
                    == text::trim_end_of(c.base_url@, '/') + "/deployments/"@ + c.model@ + rest
                    + "?api-version="@ + api_version@,
            },
{
    assert forall|rest: Seq<char>| path == #[trigger] ("/v1"@ + rest) implies effective_path(path)
        == rest by {
        assert(path.subrange(0, "/v1"@.len() as int) =~= "/v1"@);
        assert("/v1"@.is_prefix_of(path));
        assert(path.skip("/v1"@.len() as int) =~= rest);
    }
}

/// The version prefix makes no difference: a path with it is sent where the
/// path without it is.
pub proof fn the_version_prefix_makes_no_difference(c: ResolvedCandidate, rest: Seq<char>)
    requires
        !"/v1"@.is_prefix_of(rest),
    ensures
        upstream_url(c, "/v1"@ + rest) == upstream_url(c, rest),
{
    urls_go_on_behind_the_version_prefix(c, "/v1"@ + rest);
    urls_go_on_behind_the_version_prefix(c, rest);
}

/// Every request says that it is JSON, and carries the credentials of its
/// candidate under the name its provider expects, and no others. Only a
/// candidate on application credentials depends on a token, and cannot do
/// without.
pub proof fn requests_carry_the_credentials_of_their_candidate(
    c: ResolvedCandidate,
    token: Option<Seq<char>>,
)
    ensures
        request_headers(c, token) is None <==> c.kind is GcpAdc && token is None,
        request_headers(c, token) matches Some(hs) ==> {
            &&& hs.len() >= 1 && hs[0] == ("content-type"@, "application/json"@)
            &&& c.kind is ApiKey && c.api_key is None ==> hs.len() == 1
            &&& c.kind is ApiKey && c.api_key is Some ==> hs.len() == 2 && hs[1] == (
                "authorization"@,
                "Bearer "@ + c.api_key->0@,
            )
            &&& c.kind is GcpAdc ==> hs.len() == 2 && hs[1] == (
                "authorization"@,
                "Bearer "@ + token->0,
            )
            &&& c.kind is AzureOpenAi && c.api_key is None ==> hs.len() == 1
            &&& c.kind is AzureOpenAi && c.api_key is Some ==> hs.len() == 2 && hs[1] == (
                "api-key"@,
                c.api_key->0@,
            )
            &&& c.kind matches ProviderKind::Anthropic { version } ==> hs.last() == (
                "anthropic-version"@,
                version@,
            )
            &&& c.kind is Anthropic && c.api_key is None ==> hs.len() == 2
            &&& c.kind is Anthropic && c.api_key is Some ==> hs.len() == 3 && hs[1] == (
                "x-api-key"@,
                c.api_key->0@,
            )
        },
{
}

/// The name and value of each header, at its place.
pub proof fn headers_are_seen_one_by_one(
    own: Seq<(&'static str, String)>,
    relayed: Seq<(String, Vec<u8>)>,
    i: int,
)
    ensures
        header_texts(own).len() == own.len(),
        header_views(relayed).len() == relayed.len(),
        0 <= i < own.len() ==> header_texts(own)[i] == (own[i].0@, own[i].1@),
        0 <= i < relayed.len() ==> header_views(relayed)[i] == (relayed[i].0@, relayed[i].1@),
{
}

/// Lower case moves the ASCII capitals by 32 code points, and nothing else.
pub proof fn lower_case_by_code_point(s: Seq<char>, i: int)
    requires
        0 <= i < s.len(),
    ensures
        lower_text(s).len() == s.len(),
        65 <= s[i] as u32 <= 90 ==> lower_text(s)[i] as u32 == s[i] as u32 + 32,
        !(65 <= s[i] as u32 <= 90) ==> lower_text(s)[i] == s[i],
{
}

/// A header is relayed exactly when its name, in lower case, is none of ten:
/// those that concern one hop, and those that concern the origin.
pub proof fn ten_headers_are_not_relayed(name: Seq<char>)
    ensures
        relayed()(name) <==> {
            let n = lower_text(name);
            &&& n != "connection"@
            &&& n != "transfer-encoding"@
            &&& n != "te"@
            &&& n != "trailer"@
            &&& n != "upgrade"@
            &&& n != "proxy-authenticate"@
            &&& n != "proxy-authorization"@
            &&& n != "set-cookie"@
            &&& n != "alt-svc"@
            &&& n != "keep-alive"@
        },
{
}

/// Headers are kept or not one by one, in order.
pub proof fn headers_are_kept_in_order(
    hs: Seq<(Seq<char>, Seq<u8>)>,
    h: (Seq<char>, Seq<u8>),
    keep: spec_fn(Seq<char>) -> bool,
)
    ensures
        kept_headers(Seq::empty(), keep) == Seq::<(Seq<char>, Seq<u8>)>::empty(),
        keep(h.0) ==> kept_headers(hs.push(h), keep) == kept_headers(hs, keep).push(h),
        !keep(h.0) ==> kept_headers(hs.push(h), keep) == kept_headers(hs, keep),
{
    assert(hs.push(h).drop_last() =~= hs);
}

/// One more header from upstream is one more header relayed, behind the others
/// and with its value, unless its name is one of the ten.
pub proof fn upstream_headers_are_relayed_but_for_ten(
    hs: Seq<(Seq<char>, Seq<u8>)>,
    h: (Seq<char>, Seq<u8>),
)
    ensures
        kept_headers(hs.push(h), relayed()) == {
            let n = lower_text(h.0);
            if n == "connection"@ || n == "transfer-encoding"@ || n == "te"@ || n == "trailer"@ || n
                == "upgrade"@ || n == "proxy-authenticate"@ || n == "proxy-authorization"@ || n
                == "set-cookie"@ || n == "alt-svc"@ || n == "keep-alive"@ {
                kept_headers(hs, relayed())
            } else {
                kept_headers(hs, relayed()).push(h)
            }
        },
{
    headers_are_kept_in_order(hs, h, relayed());
    ten_headers_are_not_relayed(h.0);
}

/// A latency is that of a stream or of a whole response, and so are its mode
/// and its duration.
pub proof fn latencies_know_their_mode(nanos: u128)
    ensures
        UpstreamLatency::Ttfc(nanos).spec_mode() == LatencyMode::Streaming,
        UpstreamLatency::Total(nanos).spec_mode() == LatencyMode::NonStreaming,
        UpstreamLatency::Ttfc(nanos).spec_nanos() == nanos,
        UpstreamLatency::Total(nanos).spec_nanos() == nanos,
{
}

/// Attributed bodies carry the client's own labels, where it sent an object of
/// them and whatever the model, with the sidecar's over them one by one.
pub proof fn labels_are_merged_over_those_of_the_client(
    es: Entries,
    model: Seq<char>,
    ls: Seq<(Seq<char>, Seq<char>)>,
    out: Entries,
)
    requires
        prepared(es, model, Some(ls), out),
    ensures
        ({
            let client = match body::lookup(es, "labels"@) {
                Some(raw) if labels::object_value(raw) is Some => labels::object_value(raw)->0,
                _ => Map::empty(),
            };
            body::lookup(out, "labels"@) matches Some(raw) && labels::is_object_of(
                raw,
                merged(client, ls),
            )
        }),
{
    let start = with_model(es, model);
    body::set_then_get(es, "model"@, json::quoted(model));
    reveal_strlit("model");
    reveal_strlit("labels");
    assert("model"@.len() == 5 && "labels"@.len() == 6);
    assert(body::lookup(start, "labels"@) == body::lookup(es, "labels"@));
    let m = merged(client_labels(start), ls);
    assert(labelled(start, m, out));
    let s = choose|s: Seq<char>| #[trigger]
        labels::is_object_of(s, m) && out == body::assign(start, "labels"@, s);
    body::set_then_get(start, "labels"@, s);
}

/// Labels are put over others one by one, each as a JSON string.
pub proof fn labels_are_put_one_by_one(
    m: Map<Seq<char>, Seq<char>>,
    ls: Seq<(Seq<char>, Seq<char>)>,
    l: (Seq<char>, Seq<char>),
)
    ensures
        merged(m, Seq::empty()) == m,
        merged(m, ls.push(l)) == merged(m, ls).insert(l.0, json::quoted(l.1)),
{
    assert(ls.push(l).drop_last() =~= ls);
}

/// A body without attribution has the model's value set, and nothing else.
pub proof fn bodies_without_attribution_change_the_model_alone(
    es: Entries,
    model: Seq<char>,
    out: Entries,
)
    requires
        prepared(es, model, None, out),
    ensures
        body::lookup(out, "model"@) == Some(json::quoted(model)),
        forall|key: Seq<char>|
            key != "model"@ ==> body::lookup(out, key) == #[trigger] body::lookup(es, key),
        body::lookup(es, "model"@) is Some ==> body::keys_of(out) == body::keys_of(es),
        body::lookup(es, "model"@) is None ==> body::keys_of(out) == body::keys_of(es).push(
            "model"@,
        ),
{
    body::set_then_get(es, "model"@, json::quoted(model));
    body::lemma_position_first(es, "model"@);
    if body::lookup(es, "model"@) is Some {
        assert(body::keys_of(out) =~= body::keys_of(es));
    } else {
        assert(body::keys_of(out) =~= body::keys_of(es).push("model"@));
    }
}

/// The labels a candidate adds are those it was resolved with, in order.
pub proof fn candidates_add_their_own_labels(c: ResolvedCandidate, i: int)
    ensures
        candidate_labels(c) is Some <==> c.attribution_labels is Some,
        c.attribution_labels matches Some(ls) ==> {
            &&& (candidate_labels(c)->0).len() == ls@.len()
            &&& 0 <= i < ls@.len() ==> (candidate_labels(c)->0)[i] == (ls@[i].0@, ls@[i].1@)
            &&& own_labels(Some(&ls)) == candidate_labels(c)
        },
        own_labels(None) is None,
{
}

/// What is said of a response that is too large names the cap in bytes.
pub proof fn oversized_responses_are_refused_with_the_cap(cap: nat)
    ensures
        over_cap_text(cap) == "upstream response exceeds the "@ + text::decimal_text(cap)
            + " byte cap"@,
{
}

/// What `build_upstream_url` gives: the base URL less its trailing slashes, and
/// the path from behind its `/v1` on, with what Azure wants around it.
pub proof fn requests_go_to_the_url_of_their_provider(
    c: &ResolvedCandidate,
    path: &str,
    rest: Seq<char>,
    url: String,
)
    requires
        call_ensures(build_upstream_url, (c, path), url),
        path@ == "/v1"@ + rest || path@ == rest && !"/v1"@.is_prefix_of(path@),
    ensures
        !(c.kind is AzureOpenAi) ==> url@ == text::trim_end_of(c.base_url@, '/') + rest,
        c.kind matches ProviderKind::AzureOpenAi { api_version } ==> url@ == text::trim_end_of(
            c.base_url@,
            '/',
        ) + "/deployments/"@ + c.model@ + rest + "?api-version="@ + api_version@,
{
    urls_go_on_behind_the_version_prefix(*c, path@);
    assert("/v1"@ + rest == "/v1"@ + rest);
}

/// What `build_request_headers` and `needs_token` give: the content type and
/// the credentials under the name that the provider expects.
pub proof fn requests_are_authorized_as_their_provider_expects(
    c: &ResolvedCandidate,
    token: Option<&str>,
    needed: bool,
    r: Option<Vec<(&'static str, String)>>,
)
    requires
        call_ensures(needs_token, (c,), needed),
        call_ensures(build_request_headers, (c, token), r),
    ensures
        needed <==> c.kind is GcpAdc,
        r is None <==> c.kind is GcpAdc && token is None,
        r matches Some(hs) ==> {
            &&& hs@.len() >= 1 && hs@[0].0@ == "content-type"@ && hs@[0].1@
                == "application/json"@
            &&& c.kind is ApiKey && c.api_key is Some ==> hs@.len() == 2 && hs@[1].0@
                == "authorization"@ && hs@[1].1@ == "Bearer "@ + c.api_key->0@
            &&& c.kind is GcpAdc ==> hs@.len() == 2 && hs@[1].0@ == "authorization"@ && hs@[1].1@
                == "Bearer "@ + token->0@
            &&& c.kind is AzureOpenAi && c.api_key is Some ==> hs@.len() == 2 && hs@[1].0@
                == "api-key"@ && hs@[1].1@ == c.api_key->0@
            &&& c.kind is Anthropic && c.api_key is Some ==> hs@.len() == 3 && hs@[1].0@
                == "x-api-key"@ && hs@[1].1@ == c.api_key->0@
            &&& c.kind matches ProviderKind::Anthropic { version } ==> hs@.last().0@
                == "anthropic-version"@ && hs@.last().1@ == version@
            &&& c.api_key is None && !(c.kind is GcpAdc) ==> hs@.len() == if c.kind is Anthropic {
                2nat
            } else {
                1nat
            }
        },
{
    let t = match token {
        Some(t) => Some(t@),
        None => None,
    };
    requests_carry_the_credentials_of_their_candidate(*c, t);
    if let Some(hs) = r {
        let views = header_texts(hs@);
        assert(views.len() == hs@.len());
        assert forall|i: int| 0 <= i < hs@.len() implies #[trigger] views[i] == (
            hs@[i].0@,
            hs@[i].1@,
        ) by {}
        if views.len() > 1 {
            assert(views[1] == (hs@[1].0@, hs@[1].1@));
        }
        assert(views[0] == (hs@[0].0@, hs@[0].1@));
        assert(views.last() == (hs@.last().0@, hs@.last().1@));
    }
}

/// What `sanitize_response_headers` gives: each header from upstream, in order
/// and with its value, unless its name is one of ten.
pub proof fn upstream_headers_are_relayed(
    upstream: &Vec<(String, Vec<u8>)>,
    r: Vec<(String, Vec<u8>)>,
    name: Seq<char>,
    value: Seq<u8>,
)
    requires
        call_ensures(sanitize_response_headers, (upstream,), r),
    ensures
        header_views(r@).contains((name, value)) <==> header_views(upstream@).contains(
            (name, value),
        ) && {
            let n = lower_text(name);
            n != "connection"@ && n != "transfer-encoding"@ && n != "te"@ && n != "trailer"@ && n
                != "upgrade"@ && n != "proxy-authenticate"@ && n != "proxy-authorization"@ && n
                != "set-cookie"@ && n != "alt-svc"@ && n != "keep-alive"@
        },
        r@.len() <= upstream@.len(),
{
    headers_relayed_or_stripped(header_views(upstream@), (name, value));
    lemma_kept_is_no_longer(header_views(upstream@), relayed());
    assert(header_views(r@).len() == r@.len());
}

proof fn lemma_kept_is_no_longer(
    hs: Seq<(Seq<char>, Seq<u8>)>,
    keep: spec_fn(Seq<char>) -> bool,
)
    ensures
        kept_headers(hs, keep).len() <= hs.len(),
    decreases hs.len(),
{
    if hs.len() > 0 {
        lemma_kept_is_no_longer(hs.drop_last(), keep);
    }
}

/// What `relay_all` gives: every chunk up to the first error, and one error
/// event in its place.
pub proof fn streams_end_at_their_first_error<T, E>(
    items: Vec<Result<T, E>>,
    r: Vec<RelayFrame<T>>,
    k: int,
)
    requires
        call_ensures(Relay::relay_all::<T, E>, (items,), r),
        0 <= k <= items@.len(),
        forall|i: int| 0 <= i < k ==> #[trigger] items@[i] is Ok,
        k < items@.len() ==> items@[k] is Err,
    ensures
        forall|i: int|
            0 <= i < k ==> #[trigger] r@[i] == RelayFrame::<T>::Chunk(items@[i]->Ok_0),
        k == items@.len() ==> r@.len() == k,
        k < items@.len() ==> r@.len() == k + 1 && r@[k] == RelayFrame::<T>::ErrorEvent,
{
    streams_are_relayed_up_to_the_first_error(items@, k);
}

/// What a relay gives for one item: the chunk, or an error event that is the
/// last thing it gives.
pub proof fn relays_stop_after_an_error<T, E>(
    relay: &mut Relay,
    item: Result<T, E>,
    r: Option<RelayFrame<T>>,
)
    requires
        call_ensures(Relay::step::<T, E>, (relay, item), r),
    ensures
        old(relay).broken() ==> r is None && final(relay).broken(),
        !old(relay).broken() && item is Ok ==> r == Some(RelayFrame::Chunk(item->Ok_0))
            && !final(relay).broken(),
        !old(relay).broken() && item is Err ==> r == Some(RelayFrame::<T>::ErrorEvent)
            && final(relay).broken(),
{
}

/// What a streamed response starts with, and what a broken one ends with.
pub proof fn streams_start_with_their_first_chunk<T, E>(
    first: Option<Result<T, E>>,
    empty: T,
    r: Result<T, E>,
    event: &'static str,
)
    requires
        call_ensures(first_chunk::<T, E>, (first, empty), r),
        call_ensures(stream_error_event, (), event),
    ensures
        first is None ==> r == Ok::<T, E>(empty),
        first is Some ==> r == first->0,
        event@
            == "data: {\"error\":{\"message\":\"upstream stream error\",\"type\":\"proxy_error\"}}\n\n"@,
{
}

/// What reading a response under a cap gives: it is refused exactly where the
/// length it declares, or what has come of it, goes over the cap.
pub proof fn responses_stay_within_their_cap(
    cap: usize,
    declared: Option<u64>,
    fresh: Result<CappedBody, String>,
    body: &mut CappedBody,
    chunk: &[u8],
    r: Result<(), String>,
)
    requires
        call_ensures(CappedBody::new, (cap, declared), fresh),
        call_ensures(CappedBody::push, (body, chunk), r),
    ensures
        fresh is Err <==> declared is Some && declared->0 > cap,
        fresh matches Ok(b) ==> b@.len() == 0 && b.limit() == cap,
        r is Ok <==> old(body)@.len() + chunk@.len() <= old(body).limit(),
        r is Ok ==> final(body)@ == old(body)@ + chunk@,
        r is Err ==> final(body)@ == old(body)@,
        final(body).limit() == old(body).limit(),
        fresh matches Err(e) ==> e@ == "upstream response exceeds the "@ + text::decimal_text(
            cap as nat,
        ) + " byte cap"@,
{
}

/// What an outbound body gives: all its bytes in one frame, once, and until
/// then their number.
pub proof fn outbound_bodies_are_sent_once(
    body: &mut OutboundBody,
    frame: Option<Vec<u8>>,
    other: &OutboundBody,
    ended: bool,
    left: u64,
)
    requires
        call_ensures(OutboundBody::take_frame, (body,), frame),
        call_ensures(OutboundBody::is_end_stream, (other,), ended),
        call_ensures(OutboundBody::remaining, (other,), left),
    ensures
        final(body)@ is None,
        old(body)@ is None <==> frame is None,
        old(body)@ matches Some(bytes) ==> (frame->0)@ == bytes,
        ended <==> other@ is None,
        other@ matches Some(bytes) ==> left == bytes.len(),
        other@ is None ==> left == 0,
{
}

/// What is measured of a stream is the time to its first chunk, of a whole
/// response the time to its end.
pub proof fn streams_are_measured_to_their_first_chunk(
    streaming: bool,
    nanos: u128,
    r: UpstreamLatency,
)
    requires
        call_ensures(UpstreamLatency::measured, (streaming, nanos), r),
    ensures
        streaming ==> r == UpstreamLatency::Ttfc(nanos),
        !streaming ==> r == UpstreamLatency::Total(nanos),
{
}

/// What `prepare_outbound` gives: the body it was given with the model's value
/// set and, where there are labels, these over the client's own; laid out as
/// it was.
pub proof fn bodies_go_out_as_they_were_but_for_model_and_labels<'a>(
    body: RawBody<'a>,
    model: &str,
    own: Option<&Vec<(String, String)>>,
    r: OutboundBody,
)
    requires
        call_ensures(prepare_outbound, (body, model, own), r),
    ensures
        r@ is Some,
        exists|out: Entries|
            {
                &&& #[trigger] body::lookup(out, "model"@) == Some(json::quoted(model@))
                &&& r@->0 == rewritten(body@, body.layout(), out)
                &&& forall|key: Seq<char>|
                    key != "model"@ && (own is Some ==> key != "labels"@) ==> body::lookup(out, key)
                        == #[trigger] body::lookup(body@, key)
                &&& forall|i: int| 0 <= i < body@.len() ==> (#[trigger] out[i]).0 == body@[i].0
            },
{
    let labels = own_labels(own);
    let out = choose|out: Entries| #[trigger]
        prepared(body@, model@, labels, out) && r@->0 == rewritten(body@, body.layout(), out);
    other_fields_pass_through(body@, model@, labels, out);
    assert(body::lookup(out, "model"@) == Some(json::quoted(model@)));
}

/// What is left of a body that is being sent or read.
pub proof fn bodies_hand_out_their_bytes(
    sent: &OutboundBody,
    data: Option<&[u8]>,
    read: CappedBody,
    bytes: Vec<u8>,
)
    requires
        call_ensures(OutboundBody::data, (sent,), data),
        call_ensures(CappedBody::into_bytes, (read,), bytes),
    ensures
        sent@ is None <==> data is None,
        sent@ matches Some(all) ==> (data->0)@ == all,
        bytes@ == read@,
{
}

} // verus!
