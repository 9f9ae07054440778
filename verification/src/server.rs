//! What the server decides about a request, from its first line to the reply.
use crate::body;
use crate::body::{BodyError, RawBody};
use crate::budget;
use crate::budget::BufferBudget;
use crate::double::Double;
use crate::header;
use crate::header::header_text;
use crate::json;
use crate::json::{quote, Entries};
use crate::layout;
use crate::metrics;
use crate::metrics::{failure_sample, response_samples, Sample};
use crate::model_map;
use crate::model_map::{ModelMap, ResolvedCandidate};
use crate::proxy;
use crate::proxy::{copy_bytes, prepare_outbound, same_header, OutboundBody, UpstreamLatency};
use crate::router;
use crate::router::{select_candidate, RoundRobinState, Standing};
use crate::text;
use crate::text::{contains, decimal, same, split_once};
use crate::tracker::{LatencyMode, Tracker, COLD};
use vstd::prelude::*;

verus! {

/// A reply that the sidecar writes itself; its body is JSON.
#[derive(Debug)]
pub struct Reply {
    pub status: u16,
    pub body: String,
    /// The seconds after which the client is told to retry, if it is.
    pub retry_after: Option<u64>,
}

/// The body of an error reply.
pub open spec fn error_body(message: Seq<char>) -> Seq<char> {
    "{\"error\":{\"message\":"@ + json::quoted(message)
        + ",\"type\":\"invalid_request_error\"}}"@
}

impl Reply {
    /// Whether the reply is an error with that status and message.
    pub open spec fn is_error(&self, status: int, message: Seq<char>) -> bool {
        self.status == status && self.body@ == error_body(message) && self.retry_after
            is None
    }

    /// The headers of the reply: its body is JSON, and a client that is to
    /// retry is told when.
    pub open spec fn spec_headers(&self) -> Seq<(Seq<char>, Seq<char>)> {
        let json = ("content-type"@, "application/json"@);
        match self.retry_after {
            Some(secs) => seq![json, ("retry-after"@, text::decimal_text(secs as nat))],
            None => seq![json],
        }
    }

    /// The headers of the reply.
    pub fn headers(&self) -> (r: Vec<(&'static str, String)>)
        ensures
            proxy::header_texts(r@) == self.spec_headers(),
    {
        let mut r: Vec<(&'static str, String)> = Vec::new();
        r.push(("content-type", "application/json".to_owned()));
        if let Some(secs) = self.retry_after {
            r.push(("retry-after", decimal(secs)));
        }
        assert(proxy::header_texts(r@) =~= self.spec_headers());
        r
    }
}

/// An error reply.
pub fn json_error(status: u16, message: &str) -> (r: Reply)
    ensures
        r.is_error(status as int, message@),
{
    let quoted = quote(message);
    let body = "{\"error\":{\"message\":".to_owned().concat(quoted.as_str()).concat(
        ",\"type\":\"invalid_request_error\"}}",
    );
    Reply { status, body, retry_after: None }
}

/// Which endpoints a listener serves.
#[derive(Debug, Clone, Copy, PartialEq, Eq, Structural)]
pub enum Surface {
    /// All of them.
    Full,
    /// Health, status and metrics, never the proxy.
    Observability,
}

/// Where a request goes.
#[derive(Debug)]
pub enum Route {
    /// The status report.
    Status,
    /// The metrics.
    Metrics,
    /// An upstream.
    Proxy,
    /// Answered at once.
    Answer(Reply),
}

/// Whether `r` is where a request goes: `GET` reaches health, status and
/// metrics, `POST` the proxy where the listener serves it, and the rest is
/// refused.
pub open spec fn routed(
    method: Seq<char>,
    path: Seq<char>,
    surface: Surface,
    shutting_down: bool,
    r: Route,
) -> bool {
    if method == "GET"@ {
        if path == "/health"@ || path == "/healthz"@ {
            r matches Route::Answer(reply) && reply.retry_after is None && if shutting_down {
                reply.status == 503 && reply.body@ == "{\"status\":\"shutting_down\"}"@
            } else {
                reply.status == 200 && reply.body@ == "{\"status\":\"ok\"}"@
            }
        } else if path == "/status"@ {
            r is Status
        } else if path == "/metrics"@ {
            r is Metrics
        } else {
            r matches Route::Answer(reply) && reply.is_error(404, "not found"@)
        }
    } else if method == "POST"@ && surface == Surface::Full {
        r is Proxy
    } else {
        r matches Route::Answer(reply) && reply.is_error(405, "method not allowed"@)
    }
}

/// Decides where a request goes.
pub fn route(method: &str, path: &str, surface: Surface, shutting_down: bool) -> (r: Route)
    ensures
        routed(method@, path@, surface, shutting_down, r),
{
    if same(method, "GET") {
        if same(path, "/health") || same(path, "/healthz") {
            if shutting_down {
                return Route::Answer(
                    Reply {
                        status: 503,
                        body: "{\"status\":\"shutting_down\"}".to_owned(),
                        retry_after: None,
                    },
                );
            }
            return Route::Answer(
                Reply { status: 200, body: "{\"status\":\"ok\"}".to_owned(), retry_after: None },
            );
        }
        if same(path, "/status") {
            return Route::Status;
        }
        if same(path, "/metrics") {
            return Route::Metrics;
        }
        return Route::Answer(json_error(404, "not found"));
    }
    if same(method, "POST") && surface == Surface::Full {
        return Route::Proxy;
    }
    Route::Answer(json_error(405, "method not allowed"))
}

/// The observability listener never exposes the proxy.
pub proof fn observability_never_proxies(
    method: Seq<char>,
    path: Seq<char>,
    shutting_down: bool,
    r: Route,
)
    requires
        routed(method, path, Surface::Observability, shutting_down, r),
    ensures
        !(r is Proxy),
{
}

/// What is said of a body over the cap.
pub open spec fn too_large_text(cap: nat) -> Seq<char> {
    "request body too large (max "@ + text::decimal_text(cap / 1024 / 1024) + " MB)"@
}

fn too_large(cap: usize) -> (r: Reply)
    ensures
        r.is_error(413, too_large_text(cap as nat)),
{
    let mb: usize = cap / 1024 / 1024;
    let message = "request body too large (max ".to_owned().concat(
        decimal(mb as u64).as_str(),
    ).concat(" MB)");
    json_error(413, message.as_str())
}

/// The decision to take a request's body in or not.
#[derive(Debug)]
pub enum Admission {
    /// Buffer it; these permits are held meanwhile.
    Granted(u32),
    /// Refuse it for good.
    Refused(Reply),
    /// There is no memory for it just now.
    Shed(Reply),
}

/// The request size has to be reserved before it is buffered: without a
/// length it is 411, over the cap 413, and without memory for it just now 429.
pub fn admission(budget: &mut BufferBudget, declared: Option<u64>) -> (r: Admission)
    requires
        old(budget).well_formed(),
    ensures
        final(budget).well_formed(),
        final(budget).total() == old(budget).total(),
        final(budget).cap() == old(budget).cap(),
        match r {
            Admission::Granted(n) => {
                &&& declared matches Some(len) && len <= old(budget).cap() && n
                    == budget::permits_for(len as int)
                &&& n <= old(budget).free()
                &&& final(budget).free() == old(budget).free() - n
                &&& final(budget).free() + n <= final(budget).total()
            },
            Admission::Refused(reply) => {
                &&& final(budget).free() == old(budget).free()
                &&& match declared {
                    Some(len) if len <= usize::MAX => len > old(budget).cap() && reply.is_error(
                        413,
                        too_large_text(old(budget).cap()),
                    ),
                    _ => reply.is_error(411, "Content-Length is required"@),
                }
            },
            Admission::Shed(reply) => {
                &&& final(budget).free() == old(budget).free()
                &&& declared matches Some(len) && len <= old(budget).cap() && budget::permits_for(
                    len as int,
                ) > old(budget).free()
                &&& reply.status == 429
                &&& reply.body@ == error_body("buffer budget exhausted, retry shortly"@)
                &&& reply.retry_after == Some(1u64)
            },
        },
{
    let len: usize = match declared {
        Some(n) => if n <= usize::MAX as u64 {
            n as usize
        } else {
            return Admission::Refused(json_error(411, "Content-Length is required"));
        },
        None => {
            return Admission::Refused(json_error(411, "Content-Length is required"));
        },
    };
    let cap: usize = budget.max_body_bytes();
    if len > cap {
        return Admission::Refused(too_large(cap));
    }
    match budget.reserve(len) {
        Some(n) => Admission::Granted(n),
        None => {
            let reply = json_error(429, "buffer budget exhausted, retry shortly");
            Admission::Shed(
                Reply { status: reply.status, body: reply.body, retry_after: Some(1) },
            )
        },
    }
}

/// The reply when a body cannot be read to its end: it grew over the cap, or
/// the connection broke.
pub fn body_read_failure(over_cap: bool, cap: usize) -> (r: Reply)
    ensures
        over_cap ==> r.is_error(413, too_large_text(cap as nat)),
        !over_cap ==> r.is_error(400, "failed to read request body"@),
{
    if over_cap {
        too_large(cap)
    } else {
        json_error(400, "failed to read request body")
    }
}

/// The reply to bytes that are no request body.
pub fn body_error_reply(e: &BodyError) -> (r: Reply)
    ensures
        match *e {
            BodyError::NotAnObject => r.is_error(400, "request body must be a JSON object"@),
            BodyError::InvalidJson(m) => r.is_error(
                400,
                "request body is not valid JSON: "@ + m@,
            ),
        },
{
    match e {
        BodyError::NotAnObject => json_error(400, "request body must be a JSON object"),
        BodyError::InvalidJson(m) => json_error(
            400,
            "request body is not valid JSON: ".to_owned().concat(m.as_str()).as_str(),
        ),
    }
}

/// Parses a request's bytes, or says what to reply.
pub fn read_body<'a>(bytes: &'a [u8]) -> (r: Result<RawBody<'a>, Reply>)
    ensures
        match json::object_entries(bytes@) {
            Ok(es) => r matches Ok(b) && b@ == es && json::read_as(bytes@, es) && b.layout()
                == body::layout_for(bytes@, es) && body::from_input(es, bytes@)
                && body::distinct_keys(es) && json::reads_back(b.layout(), body::keys_of(es), es),
            Err((is_data, message)) => r matches Err(reply) && reply.is_error(
                400,
                if is_data {
                    "request body must be a JSON object"@
                } else {
                    "request body is not valid JSON: "@ + message
                },
            ),
        },
{
    match RawBody::from_slice(bytes) {
        Ok(b) => Ok(b),
        Err(e) => Err(body_error_reply(&e)),
    }
}

/// How `format!` shows a list of texts for debugging.
pub uninterp spec fn debug_list(names: Seq<Seq<char>>) -> Seq<char>;

/// Shows a list of texts by the `Debug` of std. Claimed: the outcome depends
/// on the texts alone.
#[verifier::external_body]
fn show_names(names: &Vec<&str>) -> (r: String)
    ensures
        r@ == debug_list(names@.map_values(|s: &str| s@)),
{
    format!("{names:?}")
}

/// The alias a request asks for.
pub open spec fn asked_alias(es: Entries) -> Option<Seq<char>> {
    match body::lookup(es, "model"@) {
        Some(raw) => json::string_value(raw),
        None => None,
    }
}

/// Whether a request asks for a stream.
pub open spec fn asks_stream(es: Entries) -> bool {
    match body::lookup(es, "stream"@) {
        Some(raw) => json::bool_value(raw) == Some(true),
        None => false,
    }
}

/// The provider and model a session-affinity header names, if it is
/// well-formed.
pub open spec fn asked_pin(header: Option<Seq<u8>>) -> Option<(Seq<char>, Seq<char>)> {
    match header {
        Some(bytes) => match header::text_of_header(bytes) {
            Some(s) => text::split_first(s, '/'),
            None => None,
        },
        None => None,
    }
}

/// The first candidate that is this provider and model, or their number.
pub open spec fn pin_position(cs: Seq<ResolvedCandidate>, pin: (Seq<char>, Seq<char>)) -> int
    decreases cs.len(),
{
    if cs.len() == 0 || (cs[0].provider_name@ == pin.0 && cs[0].model@ == pin.1) {
        0
    } else {
        1 + pin_position(cs.skip(1), pin)
    }
}

/// The candidate that a session-affinity header names, if it is one of these.
pub open spec fn pinned(cs: Seq<ResolvedCandidate>, header: Option<Seq<u8>>) -> Option<int> {
    match asked_pin(header) {
        Some(pin) => {
            let i = pin_position(cs, pin);
            if i < cs.len() {
                Some(i)
            } else {
                None
            }
        },
        None => None,
    }
}

proof fn lemma_pin_position(cs: Seq<ResolvedCandidate>, pin: (Seq<char>, Seq<char>), i: int)
    requires
        0 <= i <= cs.len(),
        forall|j: int|
            0 <= j < i ==> (#[trigger] cs[j]).provider_name@ != pin.0 || cs[j].model@ != pin.1,
        i < cs.len() ==> cs[i].provider_name@ == pin.0 && cs[i].model@ == pin.1,
    ensures
        pin_position(cs, pin) == i,
    decreases cs.len(),
{
    if i > 0 {
        let rest = cs.skip(1);
        assert(cs[0].provider_name@ != pin.0 || cs[0].model@ != pin.1);
        assert forall|j: int| 0 <= j < i - 1 implies (#[trigger] rest[j]).provider_name@ != pin.0
            || rest[j].model@ != pin.1 by {
            assert(rest[j] == cs[j + 1]);
        }
        if i < cs.len() {
            assert(rest[i - 1] == cs[i]);
        }
        lemma_pin_position(rest, pin, i - 1);
    }
}

/// The bytes of an optional header.
pub open spec fn header_bytes(h: Option<&[u8]>) -> Option<Seq<u8>> {
    match h {
        Some(bytes) => Some(bytes@),
        None => None,
    }
}

/// Finds the candidate that a session-affinity header names.
pub fn find_pinned(candidates: &[ResolvedCandidate], affinity: Option<&[u8]>) -> (r: Option<usize>)
    ensures
        match r {
            Some(i) => i < candidates@.len() && pinned(candidates@, header_bytes(affinity)) == Some(
                i as int,
            ),
            None => pinned(candidates@, header_bytes(affinity)) is None,
        },
{
    let value = match affinity {
        Some(bytes) => match header_text(bytes) {
            Some(s) => s,
            None => {
                return None;
            },
        },
        None => {
            return None;
        },
    };
    let (provider, model) = match split_once(value.as_str(), '/') {
        Some(p) => p,
        None => {
            return None;
        },
    };
    let ghost pin = (provider@, model@);
    let mut i: usize = 0;
    while i < candidates.len()
        invariant
            i <= candidates@.len(),
            pin == (provider@, model@),
            asked_pin(header_bytes(affinity)) == Some(pin),
            forall|j: int|
                0 <= j < i ==> (#[trigger] candidates@[j]).provider_name@ != pin.0
                    || candidates@[j].model@ != pin.1,
        decreases candidates@.len() - i,
    {
        if same(candidates[i].provider_name.as_str(), provider) && same(
            candidates[i].model.as_str(),
            model,
        ) {
            proof {
                lemma_pin_position(candidates@, pin, i as int);
            }
            return Some(i);
        }
        i += 1;
    }
    proof {
        lemma_pin_position(candidates@, pin, i as int);
    }
    None
}

/// A request that has a place to go.
#[derive(Debug)]
pub struct Plan<'m> {
    /// The alias it asked for.
    pub alias: String,
    /// Who serves it.
    pub candidate: &'m ResolvedCandidate,
    /// Whether it asked for a stream.
    pub streaming: bool,
}

/// The aliases of a map.
pub open spec fn alias_texts(m: Seq<(Seq<char>, Seq<ResolvedCandidate>)>) -> Seq<Seq<char>> {
    m.map_values(|a: (Seq<char>, Seq<ResolvedCandidate>)| a.0)
}

/// What is said of an alias that is not there.
pub open spec fn unknown_alias_text(
    alias: Seq<char>,
    m: Seq<(Seq<char>, Seq<ResolvedCandidate>)>,
) -> Seq<char> {
    "unknown model alias '"@ + alias + "', available: "@ + debug_list(alias_texts(m))
}

/// What is said of an alias that has nobody to serve it.
pub open spec fn no_candidate_text(alias: Seq<char>) -> Seq<char> {
    "no healthy candidate for model alias '"@ + alias + "'"@
}

/// The status and message with which a request is refused, if it is: it
/// names no model, an unknown alias, or one that nobody serves.
pub open spec fn refusal(
    es: Entries,
    m: Seq<(Seq<char>, Seq<ResolvedCandidate>)>,
) -> Option<(int, Seq<char>)> {
    match asked_alias(es) {
        None => Some((400, "missing 'model' field in request body"@)),
        Some(alias) => match model_map::candidates_of(m, alias) {
            None => Some((400, unknown_alias_text(alias, m))),
            Some(cs) => if cs.len() == 0 {
                Some((502, no_candidate_text(alias)))
            } else {
                None
            },
        },
    }
}

/// Whether a candidate counts as degraded (or not) by the error rate it has.
pub open spec fn judged<D: Fn(Double) -> Double>(
    c: ResolvedCandidate,
    tracker: &Tracker,
    error_rate: &D,
    degraded: bool,
) -> bool {
    exists|e: Double| #[trigger]
        call_ensures(error_rate, (tracker@[c.stats_index as int].rate(),), e) && degraded
            == tracker.threshold().below(e)
}

/// The mode of a request.
pub open spec fn mode_of(streaming: bool) -> LatencyMode {
    if streaming {
        LatencyMode::Streaming
    } else {
        LatencyMode::NonStreaming
    }
}

/// Whether `c` serves a request: the candidate its session is pinned to while
/// that one is not degraded, which leaves the schedule alone; else the one
/// that the schedule points at.
pub open spec fn chosen<
    E: Fn(u64, Double) -> Double,
    S: Fn(Double, Standing) -> usize,
    D: Fn(Double) -> Double,
>(
    alias: Seq<char>,
    cs: Seq<ResolvedCandidate>,
    affinity: Option<Seq<u8>>,
    streaming: bool,
    tracker: &Tracker,
    before: Map<Seq<char>, usize>,
    after: Map<Seq<char>, usize>,
    k: Double,
    effective: &E,
    share: &S,
    error_rate: &D,
    c: ResolvedCandidate,
) -> bool {
    ||| {
        &&& pinned(cs, affinity) matches Some(i) && c == cs[i] && judged(
            cs[i],
            tracker,
            error_rate,
            false,
        )
        &&& after == before
    }
    ||| {
        &&& pinned(cs, affinity) matches Some(i) ==> judged(cs[i], tracker, error_rate, true)
        &&& router::selected(
            cs,
            tracker,
            router::tick_of(before, alias),
            k,
            mode_of(streaming),
            effective,
            share,
            c,
        )
        &&& after == router::ticked(before, alias)
    }
}

/// Whether the candidates of every alias can be weighed.
pub open spec fn weighable(m: Seq<(Seq<char>, Seq<ResolvedCandidate>)>) -> bool {
    forall|a: int|
        0 <= a < m.len() ==> (#[trigger] m[a]).1.len() * router::WEIGHT_RESOLUTION <= usize::MAX
}

proof fn lemma_alias_in_range(m: Seq<(Seq<char>, Seq<ResolvedCandidate>)>, alias: Seq<char>)
    ensures
        0 <= model_map::alias_position(m, alias),
    decreases m.len(),
{
    if m.len() > 0 && m[0].0 != alias {
        lemma_alias_in_range(m.skip(1), alias);
    }
}

/// Decides who serves a request. A pin is honored until the pinned
/// candidate's error rate breaches the threshold; routing weights never
/// consult the threshold. `effective`, `share` and `error_rate` do the
/// arithmetic on doubles.
pub fn plan_request<
    'm,
    E: Fn(u64, Double) -> Double,
    S: Fn(Double, Standing) -> usize,
    D: Fn(Double) -> Double,
>(
    body: &RawBody<'_>,
    affinity: Option<&[u8]>,
    map: &'m ModelMap,
    tracker: &Tracker,
    rr: &mut RoundRobinState,
    k: Double,
    effective: &E,
    share: &S,
    error_rate: &D,
) -> (r: Result<Plan<'m>, Reply>)
    requires
        model_map::map_registered(map@, tracker@.len()),
        weighable(map@),
        forall|ms: u64, rate: Double| call_requires(effective, (ms, rate)),
        forall|s: Standing| call_requires(share, (k, s)),
        forall|s: Standing, w: usize|
            call_ensures(share, (k, s), w) ==> w <= router::WEIGHT_RESOLUTION,
        forall|rate: Double| call_requires(error_rate, (rate,)),
    ensures
        r is Err ==> final(rr)@ == old(rr)@,
        match refusal(body@, map@) {
            Some((status, message)) => r matches Err(reply) && reply.is_error(status, message),
            None => r matches Ok(plan) && {
                &&& asked_alias(body@) == Some(plan.alias@)
                &&& plan.streaming == asks_stream(body@)
                &&& body::lookup(body@, "model"@) matches Some(raw) && json::string_value(raw)
                    == Some(plan.alias@)
                &&& plan.streaming <==> (body::lookup(body@, "stream"@) matches Some(raw)
                    && json::bool_value(raw) == Some(true))
                &&& plan.candidate.stats_index < tracker@.len()
                &&& chosen(
                    plan.alias@,
                    model_map::candidates_of(map@, plan.alias@)->0,
                    header_bytes(affinity),
                    plan.streaming,
                    tracker,
                    old(rr)@,
                    final(rr)@,
                    k,
                    effective,
                    share,
                    error_rate,
                    *plan.candidate,
                )
            },
        },
{
    let alias = match body.get_as::<String>("model") {
        Some(a) => a,
        None => {
            return Err(json_error(400, "missing 'model' field in request body"));
        },
    };
    let candidates = match map.get(alias.as_str()) {
        Some(cs) => cs,
        None => {
            let names = map.alias_names();
            let shown = show_names(&names);
            let message = "unknown model alias '".to_owned().concat(alias.as_str()).concat(
                "', available: ",
            ).concat(shown.as_str());
            return Err(json_error(400, message.as_str()));
        },
    };
    let ghost cs = candidates@;
    proof {
        let a = model_map::alias_position(map@, alias@);
        lemma_alias_in_range(map@, alias@);
        assert(map@[a].1 == cs);
        assert forall|j: int| 0 <= j < cs.len() implies (#[trigger] cs[j]).stats_index
            < tracker@.len() by {
            assert(map@[a].1[j] == cs[j]);
        }
        assert(cs.len() * router::WEIGHT_RESOLUTION <= usize::MAX);
    }
    let streaming = match body.get_as::<bool>("stream") {
        Some(b) => b,
        None => false,
    };
    if let Some(i) = find_pinned(candidates, affinity) {
        assert(cs[i as int].stats_index < tracker@.len());
        if !tracker.is_degraded(candidates[i].stats_index, error_rate) {
            return Ok(Plan { alias, candidate: &candidates[i], streaming });
        }
    }
    match select_candidate(
        alias.as_str(),
        candidates,
        tracker,
        rr,
        k,
        LatencyMode::of(streaming),
        effective,
        share,
    ) {
        Some(candidate) => Ok(Plan { alias, candidate, streaming }),
        None => {
            let message = "no healthy candidate for model alias '".to_owned().concat(
                alias.as_str(),
            ).concat("'");
            Err(json_error(502, message.as_str()))
        },
    }
}

/// A request ready to be sent.
#[derive(Debug)]
pub struct Forward<'m> {
    pub alias: String,
    pub candidate: &'m ResolvedCandidate,
    pub streaming: bool,
    pub body: OutboundBody,
}

/// Takes a request from its bytes to what is sent upstream: parses it, decides
/// who serves it, and rewrites the body for that candidate, leaving all other
/// bytes alone; or says what to reply.
pub fn prepare_request<
    'm,
    E: Fn(u64, Double) -> Double,
    S: Fn(Double, Standing) -> usize,
    D: Fn(Double) -> Double,
>(
    bytes: &[u8],
    affinity: Option<&[u8]>,
    map: &'m ModelMap,
    tracker: &Tracker,
    rr: &mut RoundRobinState,
    k: Double,
    effective: &E,
    share: &S,
    error_rate: &D,
) -> (r: Result<Forward<'m>, Reply>)
    requires
        model_map::map_registered(map@, tracker@.len()),
        weighable(map@),
        forall|ms: u64, rate: Double| call_requires(effective, (ms, rate)),
        forall|s: Standing| call_requires(share, (k, s)),
        forall|s: Standing, w: usize|
            call_ensures(share, (k, s), w) ==> w <= router::WEIGHT_RESOLUTION,
        forall|rate: Double| call_requires(error_rate, (rate,)),
    ensures
        r is Err ==> final(rr)@ == old(rr)@,
        match json::object_entries(bytes@) {
            Err((is_data, message)) => r matches Err(reply) && reply.is_error(
                400,
                if is_data {
                    "request body must be a JSON object"@
                } else {
                    "request body is not valid JSON: "@ + message
                },
            ),
            Ok(es) => {
                &&& json::read_as(bytes@, es)
                &&& match refusal(es, map@) {
                    Some((status, message)) => r matches Err(reply) && reply.is_error(
                        status,
                        message,
                    ),
                    None => r matches Ok(f) && {
                        &&& body::from_input(es, bytes@)
                        &&& asked_alias(es) == Some(f.alias@)
                        &&& f.streaming == asks_stream(es)
                        &&& body::lookup(es, "model"@) matches Some(raw) && json::string_value(raw)
                            == Some(f.alias@)
                        &&& f.streaming <==> (body::lookup(es, "stream"@) matches Some(raw)
                            && json::bool_value(raw) == Some(true))
                        &&& f.candidate.stats_index < tracker@.len()
                        &&& chosen(
                            f.alias@,
                            model_map::candidates_of(map@, f.alias@)->0,
                            header_bytes(affinity),
                            f.streaming,
                            tracker,
                            old(rr)@,
                            final(rr)@,
                            k,
                            effective,
                            share,
                            error_rate,
                            *f.candidate,
                        )
                        &&& f.body@ matches Some(sent) && {
                            &&& proxy::outbound_read_back(
                                es,
                                body::layout_for(bytes@, es),
                                f.candidate.model@,
                                proxy::candidate_labels(*f.candidate),
                                sent,
                            )
                            &&& (layout::members(bytes@)->0).len() == es.len()
                                ==> proxy::forwarded(
                                bytes@,
                                es,
                                f.candidate.model@,
                                proxy::candidate_labels(*f.candidate),
                                sent,
                            )
                        }
                    },
                }
            },
        },
{
    let body = match read_body(bytes) {
        Ok(b) => b,
        Err(reply) => {
            return Err(reply);
        },
    };
    let ghost es = body@;
    match plan_request(&body, affinity, map, tracker, rr, k, effective, share, error_rate) {
        Ok(plan) => {
            let outbound = prepare_outbound(
                body,
                plan.candidate.model.as_str(),
                plan.candidate.attribution_labels.as_ref(),
            );
            proof {
                if (layout::members(bytes@)->0).len() == es.len() {
                    proxy::only_model_and_labels_change(
                        bytes@,
                        es,
                        plan.candidate.model@,
                        proxy::candidate_labels(*plan.candidate),
                        outbound@->0,
                    );
                }
            }
            Ok(
                Forward {
                    alias: plan.alias,
                    candidate: plan.candidate,
                    streaming: plan.streaming,
                    body: outbound,
                },
            )
        },
        Err(reply) => Err(reply),
    }
}

/// Whether a status counts as success.
pub open spec fn success(status: int) -> bool {
    200 <= status < 300
}

/// Whether a status counts as success: any 2xx.
pub fn is_success(status: u16) -> (r: bool)
    ensures
        r == success(status as int),
        r <==> 200 <= status <= 299,
{
    200 <= status && status < 300
}

/// A response came: a 2xx feeds its latency and a success to the tracker, any
/// other status an error. Gives what to count.
pub fn settle_response<L: Fn(Double, u64, u64) -> u64, R: Fn(Double, Double, Double) -> Double>(
    tracker: &mut Tracker,
    alias: &str,
    candidate: &ResolvedCandidate,
    status: u16,
    latency: UpstreamLatency,
    blend_latency: &L,
    blend_rate: &R,
) -> (r: (Sample, Sample))
    requires
        candidate.stats_index < old(tracker)@.len(),
        forall|alpha: Double, observed: u64, average: u64|
            call_requires(blend_latency, (alpha, observed, average)),
        forall|alpha: Double, sample: Double, rate: Double|
            call_requires(blend_rate, (alpha, sample, rate)),
    ensures
        200 <= status <= 299 ==> crate::tracker::after_success(
            old(tracker),
            final(tracker),
            candidate.stats_index as int,
            latency.spec_mode(),
            latency.spec_nanos(),
            blend_latency,
            blend_rate,
        ),
        status < 200 || status > 299 ==> crate::tracker::after_error(
            old(tracker),
            final(tracker),
            candidate.stats_index as int,
            blend_rate,
        ),
        r.0.metric == metrics::Metric::RequestsTotal,
        metrics::label_views(r.0.labels@) == seq![
            alias@,
            candidate.provider_name@,
            candidate.model@,
            text::decimal_text(status as nat),
        ],
        r.0.update == metrics::Update::Increment,
        r.1.metric == match latency.spec_mode() {
            LatencyMode::Streaming => metrics::Metric::TtfcSeconds,
            LatencyMode::NonStreaming => metrics::Metric::LatencySeconds,
        },
        metrics::label_views(r.1.labels@) == seq![
            alias@,
            candidate.provider_name@,
            candidate.model@,
        ],
        r.1.update == metrics::Update::Observe(latency.spec_nanos()),
        r.0.labels@.len() == r.0.metric.label_count(),
        r.1.labels@.len() == r.1.metric.label_count(),
{
    if is_success(status) {
        tracker.record_success(
            candidate.stats_index,
            latency.mode(),
            latency.nanos(),
            blend_latency,
            blend_rate,
        );
    } else {
        tracker.record_error(candidate.stats_index, blend_rate);
    }
    response_samples(
        alias,
        candidate.provider_name.as_str(),
        candidate.model.as_str(),
        status,
        latency,
    )
}

/// No response came: the tracker gets an error, and the client a 502 that
/// says why. Gives what to count, too.
pub fn settle_failure<R: Fn(Double, Double, Double) -> Double>(
    tracker: &mut Tracker,
    alias: &str,
    candidate: &ResolvedCandidate,
    error: &str,
    blend_rate: &R,
) -> (r: (Sample, Reply))
    requires
        candidate.stats_index < old(tracker)@.len(),
        forall|alpha: Double, sample: Double, rate: Double|
            call_requires(blend_rate, (alpha, sample, rate)),
    ensures
        crate::tracker::after_error(
            old(tracker),
            final(tracker),
            candidate.stats_index as int,
            blend_rate,
        ),
        r.0.metric == metrics::Metric::ErrorsTotal,
        metrics::label_views(r.0.labels@) == seq![
            alias@,
            candidate.provider_name@,
            candidate.model@,
        ],
        r.0.update == metrics::Update::Increment,
        r.0.labels@.len() == r.0.metric.label_count(),
        r.1.is_error(502, "upstream error: "@ + error@),
{
    tracker.record_error(candidate.stats_index, blend_rate);
    let message = "upstream error: ".to_owned().concat(error);
    (
        failure_sample(alias, candidate.provider_name.as_str(), candidate.model.as_str()),
        json_error(502, message.as_str()),
    )
}

/// The predicate for headers that the sidecar does not set itself.
pub open spec fn not_own() -> spec_fn(Seq<char>) -> bool {
    |name: Seq<char>|
        proxy::lower_text(name) != "x-sturnus-provider"@ && proxy::lower_text(name)
            != "x-session-affinity"@
}

/// The headers of a relayed response: the upstream's that are passed on, less
/// any that carry the sidecar's names, and then the provider and the session
/// affinity of the candidate.
pub open spec fn relayed_headers(
    upstream: Seq<(Seq<char>, Seq<u8>)>,
    c: ResolvedCandidate,
) -> Seq<(Seq<char>, Seq<u8>)> {
    proxy::kept_headers(proxy::kept_headers(upstream, proxy::relayed()), not_own()).push(
        ("x-sturnus-provider"@, c.provider_header@),
    ).push(("x-session-affinity"@, c.affinity_header@))
}

/// Puts the headers of a relayed response together.
pub fn response_headers(
    upstream: &Vec<(String, Vec<u8>)>,
    candidate: &ResolvedCandidate,
) -> (r: Vec<(String, Vec<u8>)>)
    ensures
        proxy::header_views(r@) == relayed_headers(proxy::header_views(upstream@), *candidate),
{
    let clean = proxy::sanitize_response_headers(upstream);
    let ghost hs = proxy::header_views(clean@);
    let mut out: Vec<(String, Vec<u8>)> = Vec::new();
    let mut i: usize = 0;
    assert(proxy::header_views(out@) =~= proxy::kept_headers(hs.take(0), not_own()));
    while i < clean.len()
        invariant
            hs == proxy::header_views(clean@),
            i <= clean@.len(),
            proxy::header_views(out@) == proxy::kept_headers(hs.take(i as int), not_own()),
        decreases clean@.len() - i,
    {
        proof {
            assert(hs.take(i + 1).drop_last() =~= hs.take(i as int));
            assert(hs.take(i + 1).last() == (clean@[i as int].0@, clean@[i as int].1@));
        }
        let name = clean[i].0.as_str();
        if !same_header(name, "x-sturnus-provider") && !same_header(name, "x-session-affinity") {
            let ghost before = out@;
            out.push((clean[i].0.clone(), copy_bytes(&clean[i].1)));
            assert(proxy::header_views(out@) =~= proxy::header_views(before).push(
                (clean@[i as int].0@, clean@[i as int].1@),
            ));
        }
        i += 1;
    }
    assert(hs.take(i as int) =~= hs);
    let ghost kept = proxy::header_views(out@);
    out.push(("x-sturnus-provider".to_owned(), copy_bytes(&candidate.provider_header)));
    let ghost one = proxy::header_views(out@);
    assert(one =~= kept.push(("x-sturnus-provider"@, candidate.provider_header@)));
    out.push(("x-session-affinity".to_owned(), copy_bytes(&candidate.affinity_header)));
    assert(proxy::header_views(out@) =~= one.push(
        ("x-session-affinity"@, candidate.affinity_header@),
    ));
    out
}

/// How a candidate is doing.
#[derive(Debug, Clone, Copy, PartialEq, Eq, Structural)]
pub enum Health {
    /// Nothing measured yet.
    Cold,
    /// Measured, but its error rate is above the threshold.
    Degraded,
    /// Measured and fine.
    Warm,
}

impl Health {
    /// The word for it in the status report.
    pub fn as_str(self) -> (r: &'static str)
        ensures
            r@ == match self {
                Health::Cold => "cold"@,
                Health::Degraded => "degraded"@,
                Health::Warm => "warm"@,
            },
    {
        match self {
            Health::Cold => "cold",
            Health::Degraded => "degraded",
            Health::Warm => "warm",
        }
    }
}

/// One candidate in the status report.
#[derive(Debug)]
pub struct StatusRow {
    pub provider: String,
    pub model: String,
    pub health: Health,
    pub streaming_ewma_ms: Option<u64>,
    pub nonstreaming_ewma_ms: Option<u64>,
    pub error_rate: Double,
}

/// A latency average, if there is one.
pub open spec fn measured(ms: u64) -> Option<u64> {
    if ms == COLD {
        None
    } else {
        Some(ms)
    }
}

/// Whether `row` reports on a candidate.
pub open spec fn reports<D: Fn(Double) -> Double>(
    c: ResolvedCandidate,
    tracker: &Tracker,
    error_rate: &D,
    row: StatusRow,
) -> bool {
    let st = tracker@[c.stats_index as int];
    &&& row.provider@ == c.provider_name@
    &&& row.model@ == c.model@
    &&& row.streaming_ewma_ms == measured(st.average(LatencyMode::Streaming))
    &&& row.nonstreaming_ewma_ms == measured(st.average(LatencyMode::NonStreaming))
    &&& call_ensures(error_rate, (st.rate(),), row.error_rate)
    &&& if row.streaming_ewma_ms is None && row.nonstreaming_ewma_ms is None {
        row.health == Health::Cold
    } else {
        ||| row.health == Health::Degraded && judged(c, tracker, error_rate, true)
        ||| row.health == Health::Warm && judged(c, tracker, error_rate, false)
    }
}

/// Whether an earlier candidate has the slot of the `i`-th.
pub open spec fn seen_before(rcs: Seq<ResolvedCandidate>, i: int) -> bool {
    exists|j: int| 0 <= j < i && (#[trigger] rcs[j]).stats_index == rcs[i].stats_index
}

/// The candidates without those whose slot an earlier one has.
pub open spec fn first_seen(rcs: Seq<ResolvedCandidate>) -> Seq<ResolvedCandidate>
    decreases rcs.len(),
{
    if rcs.len() == 0 {
        seq![]
    } else if seen_before(rcs, rcs.len() - 1) {
        first_seen(rcs.drop_last())
    } else {
        first_seen(rcs.drop_last()).push(rcs.last())
    }
}

/// No two rows of the status report are about the same slot, and every slot
/// that a candidate has is reported.
pub proof fn each_slot_is_reported_once(rcs: Seq<ResolvedCandidate>)
    ensures
        forall|i: int, j: int|
            0 <= i < j < first_seen(rcs).len() ==> (#[trigger] first_seen(rcs)[i]).stats_index != (
            #[trigger] first_seen(rcs)[j]).stats_index,
        forall|x: int|
            0 <= x < rcs.len() ==> model_map::occupied(
                first_seen(rcs),
                (#[trigger] rcs[x]).stats_index as int,
            ),
        forall|i: int|
            0 <= i < first_seen(rcs).len() ==> rcs.contains(#[trigger] first_seen(rcs)[i]),
    decreases rcs.len(),
{
    if rcs.len() > 0 {
        let init = rcs.drop_last();
        let last = rcs.len() - 1;
        let before = first_seen(init);
        let out = first_seen(rcs);
        each_slot_is_reported_once(init);
        assert forall|i: int| 0 <= i < out.len() implies rcs.contains(#[trigger] out[i]) by {
            if i < before.len() {
                assert(out[i] == before[i]);
                let x = choose|x: int| 0 <= x < init.len() && #[trigger] init[x] == before[i];
                assert(rcs[x] == out[i]);
            } else {
                assert(rcs[last] == out[i]);
            }
        }
        assert forall|x: int| 0 <= x < rcs.len() implies model_map::occupied(
            out,
            (#[trigger] rcs[x]).stats_index as int,
        ) by {
            let y = if x < last {
                x
            } else if seen_before(rcs, last) {
                choose|j: int|
                    0 <= j < last && (#[trigger] rcs[j]).stats_index == rcs[last].stats_index
            } else {
                last
            };
            if y < last {
                assert(init[y] == rcs[y]);
                assert(model_map::occupied(before, init[y].stats_index as int));
                let k = choose|k: int|
                    0 <= k < before.len() && (#[trigger] before[k]).stats_index
                        == init[y].stats_index;
                assert(out[k].stats_index == rcs[x].stats_index);
            } else {
                assert(out[before.len() as int] == rcs[last]);
            }
        }
        if !seen_before(rcs, last) {
            assert forall|i: int| 0 <= i < before.len() implies (#[trigger] before[i]).stats_index
                != rcs[last].stats_index by {
                assert(init.contains(before[i]));
                let x = choose|x: int| 0 <= x < init.len() && #[trigger] init[x] == before[i];
                assert(rcs[x] == before[i]);
            }
            assert forall|i: int, j: int| 0 <= i < j < out.len() implies (
            #[trigger] out[i]).stats_index != (#[trigger] out[j]).stats_index by {
                assert(out[i] == before[i]);
                if j < before.len() {
                    assert(out[j] == before[j]);
                }
            }
        }
    }
}

/// The candidates of a list of pairs.
pub open spec fn second(ps: Seq<(Seq<char>, ResolvedCandidate)>) -> Seq<ResolvedCandidate> {
    ps.map_values(|p: (Seq<char>, ResolvedCandidate)| p.1)
}

/// The status report: one row per candidate, however many aliases share it.
pub fn status_rows<D: Fn(Double) -> Double>(
    map: &ModelMap,
    tracker: &Tracker,
    error_rate: &D,
) -> (rows: Vec<StatusRow>)
    requires
        model_map::map_registered(map@, tracker@.len()),
        forall|rate: Double| call_requires(error_rate, (rate,)),
    ensures
        ({
            let shown = first_seen(second(model_map::alias_pairs(map@)));
            &&& rows@.len() == shown.len()
            &&& forall|i: int|
                0 <= i < shown.len() ==> reports(
                    shown[i],
                    tracker,
                    error_rate,
                    #[trigger] rows@[i],
                )
        }),
{
    let pairs = map.iter();
    let ghost view = |p: (&str, &ResolvedCandidate)| (p.0@, *p.1);
    let ghost rcs = second(model_map::alias_pairs(map@));
    proof {
        assert(rcs.len() == pairs@.len());
        assert forall|i: int| 0 <= i < pairs@.len() implies #[trigger] rcs[i] == *pairs@[i].1 by {
            assert(pairs@.map_values(view)[i] == (pairs@[i].0@, *pairs@[i].1));
        }
        lemma_pairs_registered(map@, tracker@.len());
    }
    let mut rows: Vec<StatusRow> = Vec::new();
    let mut n: usize = 0;
    assert(rcs.take(0) =~= Seq::<ResolvedCandidate>::empty());
    while n < pairs.len()
        invariant
            n <= pairs@.len(),
            rcs.len() == pairs@.len(),
            forall|i: int| 0 <= i < pairs@.len() ==> #[trigger] rcs[i] == *pairs@[i].1,
            forall|i: int| 0 <= i < rcs.len() ==> (#[trigger] rcs[i]).stats_index < tracker@.len(),
            forall|rate: Double| call_requires(error_rate, (rate,)),
            rows@.len() == first_seen(rcs.take(n as int)).len(),
            forall|i: int|
                0 <= i < rows@.len() ==> reports(
                    first_seen(rcs.take(n as int))[i],
                    tracker,
                    error_rate,
                    #[trigger] rows@[i],
                ),
        decreases pairs@.len() - n,
    {
        let c = pairs[n].1;
        let ghost upto = rcs.take(n + 1);
        proof {
            assert(upto.drop_last() =~= rcs.take(n as int));
            assert(upto.last() == rcs[n as int]);
            assert(rcs[n as int] == *c);
        }
        let mut seen = false;
        let mut j: usize = 0;
        while j < n
            invariant
                j <= n,
                n < pairs@.len(),
                rcs.len() == pairs@.len(),
                upto == rcs.take(n + 1),
                *c == rcs[n as int],
                forall|i: int| 0 <= i < pairs@.len() ==> #[trigger] rcs[i] == *pairs@[i].1,
                seen == exists|k: int|
                    0 <= k < j && (#[trigger] upto[k]).stats_index == c.stats_index,
            decreases n - j,
        {
            assert(upto[j as int] == rcs[j as int]);
            if pairs[j].1.stats_index == c.stats_index {
                seen = true;
            }
            j += 1;
        }
        assert(upto[n as int] == *c);
        assert(seen == seen_before(upto, n as int));
        if !seen {
            assert(rcs[n as int].stats_index < tracker@.len());
            let stats = tracker.stats(c.stats_index);
            let streaming: u64 = stats.ewma_ms(LatencyMode::Streaming);
            let nonstreaming: u64 = stats.ewma_ms(LatencyMode::NonStreaming);
            let health = if streaming == COLD && nonstreaming == COLD {
                Health::Cold
            } else if tracker.is_degraded(c.stats_index, error_rate) {
                Health::Degraded
            } else {
                Health::Warm
            };
            let row = StatusRow {
                provider: c.provider_name.clone(),
                model: c.model.clone(),
                health,
                streaming_ewma_ms: if streaming == COLD {
                    None
                } else {
                    Some(streaming)
                },
                nonstreaming_ewma_ms: if nonstreaming == COLD {
                    None
                } else {
                    Some(nonstreaming)
                },
                error_rate: error_rate(stats.success_rate()),
            };
            assert(reports(*c, tracker, error_rate, row));
            rows.push(row);
        }
        n += 1;
    }
    assert(rcs.take(n as int) =~= rcs);
    rows
}

proof fn lemma_pairs_registered(m: Seq<(Seq<char>, Seq<ResolvedCandidate>)>, slots: nat)
    requires
        model_map::map_registered(m, slots),
    ensures
        forall|i: int|
            0 <= i < model_map::alias_pairs(m).len() ==> (#[trigger] second(
                model_map::alias_pairs(m),
            )[i]).stats_index < slots,
    decreases m.len(),
{
    if m.len() > 0 {
        let init = m.drop_last();
        assert(model_map::map_registered(init, slots)) by {
            assert forall|a: int, j: int| 0 <= a < init.len() && 0 <= j < init[a].1.len() implies (
            #[trigger] init[a].1[j]).stats_index < slots by {
                assert(init[a].1[j] == m[a].1[j]);
            }
        }
        lemma_pairs_registered(init, slots);
        let before = model_map::alias_pairs(init);
        let all = model_map::alias_pairs(m);
        assert forall|i: int| 0 <= i < all.len() implies (#[trigger] second(all)[i]).stats_index
            < slots by {
            if i < before.len() {
                assert(second(before)[i] == second(all)[i]);
            } else {
                let j = i - before.len();
                assert(second(all)[i] == m[m.len() - 1].1[j]);
            }
        }
    }
}

/// Where a listener is in its life.
#[derive(Debug, Clone, Copy, PartialEq, Eq, Structural)]
pub enum Phase {
    /// Taking connections.
    Accepting,
    /// Taking none, and waiting for those it has.
    Draining,
    /// Done.
    Stopped,
}

/// What can happen to a listener.
#[derive(Debug, Clone, Copy, PartialEq, Eq, Structural)]
pub enum Event {
    Connected,
    AcceptFailed,
    ShutdownRequested,
    AllDrained,
    DrainTimedOut,
}

/// What to do about it.
#[derive(Debug, Clone, Copy, PartialEq, Eq, Structural)]
pub enum Action {
    /// Serve the connection.
    Serve,
    /// Log the failure and keep accepting.
    KeepAccepting,
    /// Report unhealthy, close the socket, and let connections finish.
    BeginDrain,
    /// Every connection finished in time.
    Finish,
    /// Drop the connections that are left.
    Abandon,
    /// Nothing.
    Ignore,
}

/// The next phase and what to do.
pub open spec fn step_of(phase: Phase, event: Event) -> (Phase, Action) {
    match phase {
        Phase::Accepting => match event {
            Event::Connected => (Phase::Accepting, Action::Serve),
            Event::AcceptFailed => (Phase::Accepting, Action::KeepAccepting),
            Event::ShutdownRequested => (Phase::Draining, Action::BeginDrain),
            _ => (Phase::Accepting, Action::Ignore),
        },
        Phase::Draining => match event {
            Event::AllDrained => (Phase::Stopped, Action::Finish),
            Event::DrainTimedOut => (Phase::Stopped, Action::Abandon),
            _ => (Phase::Draining, Action::Ignore),
        },
        Phase::Stopped => (Phase::Stopped, Action::Ignore),
    }
}

impl Phase {
    /// The next phase and what to do.
    pub fn on(self, event: Event) -> (r: (Phase, Action))
        ensures
            r == step_of(self, event),
    {
        match self {
            Phase::Accepting => match event {
                Event::Connected => (Phase::Accepting, Action::Serve),
                Event::AcceptFailed => (Phase::Accepting, Action::KeepAccepting),
                Event::ShutdownRequested => (Phase::Draining, Action::BeginDrain),
                _ => (Phase::Accepting, Action::Ignore),
            },
            Phase::Draining => match event {
                Event::AllDrained => (Phase::Stopped, Action::Finish),
                Event::DrainTimedOut => (Phase::Stopped, Action::Abandon),
                _ => (Phase::Draining, Action::Ignore),
            },
            Phase::Stopped => (Phase::Stopped, Action::Ignore),
        }
    }

    /// Whether health is reported as shutting down.
    pub fn is_shutting_down(self) -> (r: bool)
        ensures
            r == (self != Phase::Accepting),
    {
        match self {
            Phase::Accepting => false,
            _ => true,
        }
    }

    /// Whether the observability listener beside the proxy stays up: until
    /// the proxy has finished draining.
    pub fn keeps_observability(self) -> (r: bool)
        ensures
            r == (self != Phase::Stopped),
    {
        match self {
            Phase::Stopped => false,
            _ => true,
        }
    }
}

/// The phase after some events.
pub open spec fn phase_after(start: Phase, events: Seq<Event>) -> Phase
    decreases events.len(),
{
    if events.len() == 0 {
        start
    } else {
        step_of(phase_after(start, events.drop_last()), events.last()).0
    }
}

/// Once a shutdown has been requested no connection is taken any more, and
/// the listener stops exactly when its connections have drained or the
/// timeout has passed after that.
pub proof fn shutdown_is_final(events: Seq<Event>, event: Event)
    ensures
        (exists|i: int| 0 <= i < events.len() && #[trigger] events[i] == Event::ShutdownRequested)
            <==> phase_after(Phase::Accepting, events) != Phase::Accepting,
        phase_after(Phase::Accepting, events) != Phase::Accepting ==> step_of(
            phase_after(Phase::Accepting, events),
            event,
        ).1 != Action::Serve,
        step_of(phase_after(Phase::Accepting, events), event).0 == Phase::Stopped <==> {
            ||| phase_after(Phase::Accepting, events) == Phase::Stopped
            ||| phase_after(Phase::Accepting, events) == Phase::Draining && (event
                == Event::AllDrained || event == Event::DrainTimedOut)
        },
    decreases events.len(),
{
    if events.len() > 0 {
        let init = events.drop_last();
        shutdown_is_final(init, event);
        let last = events[events.len() - 1];
        if exists|i: int| 0 <= i < events.len() && #[trigger] events[i] == Event::ShutdownRequested {
            let i = choose|i: int|
                0 <= i < events.len() && #[trigger] events[i] == Event::ShutdownRequested;
            if i < init.len() {
                assert(init[i] == Event::ShutdownRequested);
            }
        }
        if phase_after(Phase::Accepting, init) != Phase::Accepting {
            let i = choose|i: int|
                0 <= i < init.len() && #[trigger] init[i] == Event::ShutdownRequested;
            assert(events[i] == Event::ShutdownRequested);
        } else if last == Event::ShutdownRequested {
            assert(events[events.len() - 1] == Event::ShutdownRequested);
        }
    }
}

/// Whether a connection's error is worth a log line: not if the peer merely
/// closed it.
pub fn is_reportable(error: &str) -> (r: bool)
    ensures
        r == !text::occurs(error@, "connection closed"@),
{
    !contains(error, "connection closed")
}

/// The URL a health probe asks.
pub fn health_url(listen: &str) -> (r: String)
    ensures
        r@ == "http://"@ + listen@ + "/health"@,
{
    "http://".to_owned().concat(listen).concat("/health")
}

/// Whether a probe's answer means healthy.
pub fn is_healthy(status: u16) -> (r: bool)
    ensures
        r == (status == 200),
{
    status == 200
}

/// Whether a text can be carried by a header and read back: visible ASCII,
/// spaces and tabs.
pub open spec fn readable(s: Seq<char>) -> bool {
    forall|i: int|
        #![trigger s[i]]
        0 <= i < s.len() ==> '\u{7f}' >= s[i] && header::visible_byte(s[i] as u8)
}

proof fn lemma_least_char(c: char)
    ensures
        '\0' <= c,
{
}

/// Session affinity is stateless: the header of a response, sent back with a
/// request for the same alias, pins it to the same provider and model. (A
/// provider whose name has a slash in it, or a name beyond ASCII, cannot be
/// pinned.)
pub proof fn affinity_pins_to_the_same_candidate(cs: Seq<ResolvedCandidate>, i: int)
    requires
        0 <= i < cs.len(),
        cs[i].affinity_header@ == vstd::utf8::encode_utf8(
            model_map::affinity_text(cs[i].provider_name@, cs[i].model@),
        ),
        readable(cs[i].provider_name@),
        readable(cs[i].model@),
        !cs[i].provider_name@.contains('/'),
    ensures
        pinned(cs, Some(cs[i].affinity_header@)) matches Some(k) && 0 <= k <= i
            && model_map::pair_of(cs[k]) == model_map::pair_of(cs[i]),
{
    let provider = cs[i].provider_name@;
    let model = cs[i].model@;
    let s = model_map::affinity_text(provider, model);
    reveal_strlit("/");
    assert("/"@ =~= seq!['/']);
    assert(s =~= provider + seq!['/'] + model);
    assert forall|j: int|
        #![trigger s[j]]
        0 <= j < s.len() implies '\u{7f}' >= s[j] && header::visible_byte(s[j] as u8) by {
        if j < provider.len() {
            assert(s[j] == provider[j]);
        } else if j > provider.len() {
            assert(s[j] == model[j - provider.len() - 1]);
        }
    }
    assert forall|j: int| 0 <= j < s.len() implies '\0' <= #[trigger] s[j] <= '\u{7f}' by {
        lemma_least_char(s[j]);
    }
    assert(vstd::utf8::is_ascii_chars(s));
    vstd::utf8::is_ascii_chars_encode_utf8(s);
    let bytes = cs[i].affinity_header@;
    assert(bytes =~= Seq::new(s.len(), |j: int| s[j] as u8));
    assert forall|j: int| 0 <= j < bytes.len() implies header::visible_byte(#[trigger] bytes[j]) by {
        assert(bytes[j] == s[j] as u8);
        assert(header::visible_byte(s[j] as u8));
    }
    assert forall|j: int| 0 <= j < s.len() implies (#[trigger] bytes[j]) as char == s[j] by {
        assert(bytes[j] == s[j] as u8);
    }
    assert(bytes.map_values(|b: u8| b as char) =~= s);
    assert forall|j: int| 0 <= j < provider.len() implies s[j] != '/' by {
        assert(provider.contains(provider[j]));
    }
    text::lemma_find(s, '/', provider.len() as int);
    assert(s.take(provider.len() as int) =~= provider);
    assert(s.skip(provider.len() as int + 1) =~= model);
    assert(asked_pin(Some(bytes)) == Some((provider, model)));
    lemma_pin_found(cs, (provider, model), i);
}

proof fn lemma_pin_found(cs: Seq<ResolvedCandidate>, pin: (Seq<char>, Seq<char>), i: int)
    requires
        0 <= i < cs.len(),
        cs[i].provider_name@ == pin.0,
        cs[i].model@ == pin.1,
    ensures
        0 <= pin_position(cs, pin) <= i,
        cs[pin_position(cs, pin)].provider_name@ == pin.0,
        cs[pin_position(cs, pin)].model@ == pin.1,
    decreases cs.len(),
{
    if !(cs[0].provider_name@ == pin.0 && cs[0].model@ == pin.1) {
        assert(cs.skip(1)[i - 1] == cs[i]);
        lemma_pin_found(cs.skip(1), pin, i - 1);
        assert(cs.skip(1)[pin_position(cs.skip(1), pin)] == cs[pin_position(cs, pin)]);
    }
}

/// A header whose pin is not among the candidates, or that is no pin at all,
/// changes nothing: the request is routed as without it.
pub proof fn unknown_pins_are_ignored(cs: Seq<ResolvedCandidate>, header: Seq<u8>)
    requires
        match asked_pin(Some(header)) {
            Some(pin) => forall|i: int|
                0 <= i < cs.len() ==> (#[trigger] cs[i]).provider_name@ != pin.0 || cs[i].model@
                    != pin.1,
            None => true,
        },
    ensures
        pinned(cs, Some(header)) == pinned(cs, None),
{
    if let Some(pin) = asked_pin(Some(header)) {
        lemma_pin_position(cs, pin, cs.len() as int);
    }
}

proof fn lemma_kept_excludes(
    hs: Seq<(Seq<char>, Seq<u8>)>,
    keep: spec_fn(Seq<char>) -> bool,
)
    ensures
        forall|i: int|
            0 <= i < proxy::kept_headers(hs, keep).len() ==> keep(
                (#[trigger] proxy::kept_headers(hs, keep)[i]).0,
            ),
    decreases hs.len(),
{
    if hs.len() > 0 {
        let rest = proxy::kept_headers(hs.drop_last(), keep);
        let out = proxy::kept_headers(hs, keep);
        lemma_kept_excludes(hs.drop_last(), keep);
        assert forall|i: int| 0 <= i < out.len() implies keep((#[trigger] out[i]).0) by {
            if i < rest.len() {
                assert(out[i] == rest[i]);
            }
        }
    }
}

/// Every relayed response names its candidate once: whatever the upstream
/// sent, exactly one header has each of the sidecar's names, the last two.
pub proof fn responses_name_their_candidate(
    upstream: Seq<(Seq<char>, Seq<u8>)>,
    c: ResolvedCandidate,
    i: int,
)
    requires
        0 <= i < relayed_headers(upstream, c).len(),
    ensures
        ({
            let hs = relayed_headers(upstream, c);
            let n = hs.len();
            &&& n >= 2
            &&& hs[n - 2] == ("x-sturnus-provider"@, c.provider_header@)
            &&& hs[n - 1] == ("x-session-affinity"@, c.affinity_header@)
            &&& i < n - 2 ==> not_own()(hs[i].0)
        }),
{
    let kept = proxy::kept_headers(proxy::kept_headers(upstream, proxy::relayed()), not_own());
    lemma_kept_excludes(proxy::kept_headers(upstream, proxy::relayed()), not_own());
    if i < kept.len() {
        assert(relayed_headers(upstream, c)[i] == kept[i]);
    }
}

/// A status counts as success exactly when it is in the two hundreds.
pub proof fn successes_are_the_two_hundreds(status: int)
    ensures
        success(status) <==> status / 100 == 2,
{
}

/// A request streams exactly when its `stream` field is the JSON `true`; it
/// does not where that is `false`, something else, or absent.
pub proof fn streams_are_asked_for_by_a_true_field(es: Entries, raw: Seq<char>)
    ensures
        asks_stream(es) <==> (body::lookup(es, "stream"@) matches Some(text) && json::bool_value(
            text,
        ) == Some(true)),
        body::lookup(es, "stream"@) == Some(raw) && json::is_word(raw, "true"@) ==> asks_stream(es),
        body::lookup(es, "stream"@) == Some(raw) && !json::is_word(raw, "true"@) ==> !asks_stream(
            es,
        ),
        body::lookup(es, "stream"@) is None ==> !asks_stream(es),
{
}

/// The alias a request asks for is its `model` field, where that is a string.
pub proof fn aliases_are_asked_for_by_the_model_field(es: Entries)
    ensures
        asked_alias(es) == match body::lookup(es, "model"@) {
            Some(raw) => json::string_value(raw),
            None => None,
        },
{
}

/// A stream is timed to its first chunk, a whole response to its end.
pub proof fn modes_follow_the_request()
    ensures
        mode_of(true) == LatencyMode::Streaming,
        mode_of(false) == LatencyMode::NonStreaming,
{
}

/// An error reply is JSON that holds the message as a string, and nothing of
/// what the client may do later.
pub proof fn errors_are_json_with_their_message(reply: Reply, status: int, message: Seq<char>)
    ensures
        reply.is_error(status, message) <==> {
            &&& reply.status == status
            &&& reply.body@ == "{\"error\":{\"message\":"@ + json::quoted(message)
                + ",\"type\":\"invalid_request_error\"}}"@
            &&& reply.retry_after is None
        },
        error_body(message) == "{\"error\":{\"message\":"@ + json::quoted(message)
            + ",\"type\":\"invalid_request_error\"}}"@,
{
}

/// A body that is too large is refused with the cap in whole megabytes.
pub proof fn oversized_bodies_are_refused_with_the_cap(cap: nat)
    ensures
        exists|mb: nat|
            {
                &&& mb * 1048576 <= cap < (mb + 1) * 1048576
                &&& too_large_text(cap) == "request body too large (max "@
                    + #[trigger] text::decimal_text(mb) + " MB)"@
            },
{
    let mb = cap / 1024 / 1024;
    assert(mb * 1048576 <= cap < (mb + 1) * 1048576);
    assert(too_large_text(cap) == "request body too large (max "@ + text::decimal_text(mb)
        + " MB)"@);
}

/// Every reply of the sidecar's own says that it is JSON, and when to retry
/// where it is to be retried.
pub proof fn replies_are_json_and_say_when_to_retry(reply: Reply)
    ensures
        reply.spec_headers().len() >= 1,
        reply.spec_headers()[0] == ("content-type"@, "application/json"@),
        reply.retry_after is None ==> reply.spec_headers().len() == 1,
        reply.retry_after matches Some(secs) ==> reply.spec_headers().len() == 2
            && reply.spec_headers()[1] == ("retry-after"@, text::decimal_text(secs as nat)),
{
}

/// Each endpoint is reached by one method and path and by no other: `GET` for
/// health, status and metrics, `POST` for the proxy where it is served. What
/// is left is not found, or not allowed.
pub proof fn endpoints_are_reached_by_method_and_path(
    method: Seq<char>,
    path: Seq<char>,
    surface: Surface,
    shutting_down: bool,
    r: Route,
)
    requires
        routed(method, path, surface, shutting_down, r),
    ensures
        r is Status <==> method == "GET"@ && path == "/status"@,
        r is Metrics <==> method == "GET"@ && path == "/metrics"@,
        r is Proxy <==> method == "POST"@ && surface == Surface::Full,
        method == "GET"@ && (path == "/health"@ || path == "/healthz"@) ==> (
        r matches Route::Answer(reply) && reply.retry_after is None && (shutting_down
            ==> reply.status == 503 && reply.body@ == "{\"status\":\"shutting_down\"}"@) && (
        !shutting_down ==> reply.status == 200 && reply.body@ == "{\"status\":\"ok\"}"@)),
        method == "GET"@ && path != "/health"@ && path != "/healthz"@ && path != "/status"@ && path
            != "/metrics"@ ==> (r matches Route::Answer(reply) && reply.is_error(
            404,
            "not found"@,
        )),
        method != "GET"@ && !(method == "POST"@ && surface == Surface::Full) ==> (
        r matches Route::Answer(reply) && reply.is_error(405, "method not allowed"@)),
{
    reveal_strlit("GET");
    reveal_strlit("POST");
    reveal_strlit("/status");
    reveal_strlit("/metrics");
    reveal_strlit("/health");
    reveal_strlit("/healthz");
    assert("GET"@.len() == 3 && "POST"@.len() == 4);
    assert("/status"@.len() == 7 && "/metrics"@.len() == 8 && "/health"@.len() == 7
        && "/healthz"@.len() == 8);
    assert("/status"@[1] == 's' && "/health"@[1] == 'h');
    assert("/metrics"@[1] == 'm' && "/healthz"@[1] == 'h');
}

/// A request is refused in three ways: with 400 where it names no model or an
/// alias that is not there, and with 502 where nobody serves the alias.
pub proof fn requests_are_refused_in_three_ways(
    es: Entries,
    m: Seq<(Seq<char>, Seq<ResolvedCandidate>)>,
)
    ensures
        asked_alias(es) is None ==> refusal(es, m) == Some(
            (400int, "missing 'model' field in request body"@),
        ),
        asked_alias(es) matches Some(alias) ==> {
            let names = Seq::new(m.len(), |i: int| m[i].0);
            &&& !names.contains(alias) ==> refusal(es, m) == Some(
                (
                    400int,
                    "unknown model alias '"@ + alias + "', available: "@ + debug_list(names),
                ),
            )
            &&& forall|i: int|
                0 <= i < m.len() && (#[trigger] m[i]).0 == alias && (forall|j: int|
                    0 <= j < i ==> (#[trigger] m[j]).0 != alias) ==> if m[i].1.len() == 0 {
                    refusal(es, m) == Some(
                        (502int, "no healthy candidate for model alias '"@ + alias + "'"@),
                    )
                } else {
                    refusal(es, m) is None
                }
        },
{
    if let Some(alias) = asked_alias(es) {
        let names = Seq::new(m.len(), |i: int| m[i].0);
        assert(alias_texts(m) =~= names);
        if !names.contains(alias) {
            assert forall|j: int| 0 <= j < m.len() implies (#[trigger] m[j]).0 != alias by {
                assert(names[j] == m[j].0);
            }
            model_map::aliases_are_found_by_name(m, alias, m.len() as int);
        }
        assert forall|i: int|
            0 <= i < m.len() && (#[trigger] m[i]).0 == alias && (forall|j: int|
                0 <= j < i ==> (#[trigger] m[j]).0 != alias) implies if m[i].1.len() == 0 {
            refusal(es, m) == Some(
                (502int, "no healthy candidate for model alias '"@ + alias + "'"@),
            )
        } else {
            refusal(es, m) is None
        } by {
            model_map::aliases_are_found_by_name(m, alias, i);
        }
    }
}

/// A header pins to a candidate exactly when it reads as that one's provider,
/// a slash and its model, the provider without a slash in it, and no candidate
/// in front of it has both names.
pub proof fn pins_name_provider_and_model(
    cs: Seq<ResolvedCandidate>,
    header: Seq<u8>,
    provider: Seq<char>,
    model: Seq<char>,
    i: int,
)
    requires
        header::text_of_header(header) == Some(provider + seq!['/'] + model),
        !provider.contains('/'),
    ensures
        pinned(cs, Some(header)) == Some(i) <==> {
            &&& 0 <= i < cs.len()
            &&& cs[i].provider_name@ == provider && cs[i].model@ == model
            &&& forall|j: int|
                0 <= j < i ==> (#[trigger] cs[j]).provider_name@ != provider || cs[j].model@
                    != model
        },
        (forall|j: int|
            0 <= j < cs.len() ==> (#[trigger] cs[j]).provider_name@ != provider || cs[j].model@
                != model) ==> pinned(cs, Some(header)) is None,
{
    let s = provider + seq!['/'] + model;
    assert forall|j: int| 0 <= j < provider.len() implies s[j] != '/' by {
        assert(provider.contains(provider[j]));
    }
    text::lemma_find(s, '/', provider.len() as int);
    assert(s.take(provider.len() as int) =~= provider);
    assert(s.skip(provider.len() as int + 1) =~= model);
    let pin = (provider, model);
    assert(asked_pin(Some(header)) == Some(pin));
    lemma_pin_is_first(cs, pin);
    if 0 <= i < cs.len() && cs[i].provider_name@ == provider && cs[i].model@ == model {
        if forall|j: int|
            0 <= j < i ==> (#[trigger] cs[j]).provider_name@ != provider || cs[j].model@ != model {
            lemma_pin_position(cs, pin, i);
        }
    }
}

proof fn lemma_pin_is_first(cs: Seq<ResolvedCandidate>, pin: (Seq<char>, Seq<char>))
    ensures
        0 <= pin_position(cs, pin) <= cs.len(),
        pin_position(cs, pin) < cs.len() ==> cs[pin_position(cs, pin)].provider_name@ == pin.0
            && cs[pin_position(cs, pin)].model@ == pin.1,
        forall|j: int|
            0 <= j < pin_position(cs, pin) ==> (#[trigger] cs[j]).provider_name@ != pin.0
                || cs[j].model@ != pin.1,
    decreases cs.len(),
{
    if cs.len() > 0 && !(cs[0].provider_name@ == pin.0 && cs[0].model@ == pin.1) {
        let rest = cs.skip(1);
        lemma_pin_is_first(rest, pin);
        let p = pin_position(cs, pin);
        assert forall|j: int| 0 <= j < p implies (#[trigger] cs[j]).provider_name@ != pin.0
            || cs[j].model@ != pin.1 by {
            if j > 0 {
                assert(rest[j - 1] == cs[j]);
            }
        }
        if p < cs.len() {
            assert(rest[p - 1] == cs[p]);
        }
    }
}

/// A header without a slash, one that is no text, and no header at all pin to
/// nobody.
pub proof fn headers_without_a_slash_pin_nobody(cs: Seq<ResolvedCandidate>, header: Seq<u8>)
    requires
        header::text_of_header(header) matches Some(s) ==> !s.contains('/'),
    ensures
        pinned(cs, Some(header)) is None,
        pinned(cs, None) is None,
{
    if let Some(s) = header::text_of_header(header) {
        text::splits_at_the_first_separator(s, '/');
        if text::split_first(s, '/') is Some {
            let (a, b) = text::split_first(s, '/')->0;
            assert(s[a.len() as int] == '/');
        }
    }
}

/// A candidate is degraded exactly when the error rate that its success rate
/// gives is above the threshold.
pub proof fn candidates_are_judged_by_their_error_rate<D: Fn(Double) -> Double>(
    c: ResolvedCandidate,
    tracker: &Tracker,
    error_rate: &D,
    degraded: bool,
)
    requires
        judged(c, tracker, error_rate, degraded),
    ensures
        exists|e: Double| #[trigger]
            call_ensures(error_rate, (tracker@[c.stats_index as int].rate(),), e) && degraded
                == tracker.threshold().below(e),
{
}

/// A request goes to the candidate it is pinned to, which moves no counter, or
/// else to the one that the alias's tick selects in the mode of the request,
/// which moves the alias's counter; it leaves its pin only where that one is
/// degraded.
pub proof fn pins_hold_until_they_degrade<
    E: Fn(u64, Double) -> Double,
    S: Fn(Double, Standing) -> usize,
    D: Fn(Double) -> Double,
>(
    alias: Seq<char>,
    cs: Seq<ResolvedCandidate>,
    affinity: Option<Seq<u8>>,
    streaming: bool,
    tracker: &Tracker,
    before: Map<Seq<char>, usize>,
    after: Map<Seq<char>, usize>,
    k: Double,
    effective: &E,
    share: &S,
    error_rate: &D,
    c: ResolvedCandidate,
)
    requires
        chosen(
            alias,
            cs,
            affinity,
            streaming,
            tracker,
            before,
            after,
            k,
            effective,
            share,
            error_rate,
            c,
        ),
    ensures
        pinned(cs, affinity) is None ==> after == router::ticked(before, alias)
            && router::selected(
            cs,
            tracker,
            router::tick_of(before, alias),
            k,
            if streaming {
                LatencyMode::Streaming
            } else {
                LatencyMode::NonStreaming
            },
            effective,
            share,
            c,
        ),
        pinned(cs, affinity) matches Some(i) ==> {
            ||| c == cs[i] && after == before && judged(cs[i], tracker, error_rate, false)
            ||| {
                &&& judged(cs[i], tracker, error_rate, true)
                &&& after == router::ticked(before, alias)
                &&& router::selected(
                    cs,
                    tracker,
                    router::tick_of(before, alias),
                    k,
                    if streaming {
                        LatencyMode::Streaming
                    } else {
                        LatencyMode::NonStreaming
                    },
                    effective,
                    share,
                    c,
                )
            }
        },
{
}

/// A response without headers of its own names its candidate in two; one more
/// header from upstream stands in front of those two, behind the others,
/// unless its name is one of ten that are not relayed or one of the two.
pub proof fn responses_relay_headers_in_front_of_their_own(
    upstream: Seq<(Seq<char>, Seq<u8>)>,
    h: (Seq<char>, Seq<u8>),
    c: ResolvedCandidate,
)
    ensures
        relayed_headers(Seq::empty(), c) == seq![
            ("x-sturnus-provider"@, c.provider_header@),
            ("x-session-affinity"@, c.affinity_header@),
        ],
        ({
            let n = proxy::lower_text(h.0);
            let hs = relayed_headers(upstream, c);
            let kept = n != "connection"@ && n != "transfer-encoding"@ && n != "te"@ && n
                != "trailer"@ && n != "upgrade"@ && n != "proxy-authenticate"@ && n
                != "proxy-authorization"@ && n != "set-cookie"@ && n != "alt-svc"@ && n
                != "keep-alive"@ && n != "x-sturnus-provider"@ && n != "x-session-affinity"@;
            relayed_headers(upstream.push(h), c) == if kept {
                hs.insert(hs.len() - 2, h)
            } else {
                hs
            }
        }),
{
    let relayed = proxy::kept_headers(upstream, proxy::relayed());
    let hs = relayed_headers(upstream, c);
    proxy::headers_are_kept_in_order(upstream, h, proxy::relayed());
    proxy::headers_are_kept_in_order(relayed, h, not_own());
    proxy::ten_headers_are_not_relayed(h.0);
    let own = seq![
        ("x-sturnus-provider"@, c.provider_header@),
        ("x-session-affinity"@, c.affinity_header@),
    ];
    assert(relayed_headers(Seq::empty(), c) =~= own);
    let all = relayed_headers(upstream.push(h), c);
    if proxy::relayed()(h.0) && not_own()(h.0) {
        assert(all =~= hs.insert(hs.len() - 2, h));
    } else {
        assert(all =~= hs);
    }
}

/// A row of the status report names its candidate, shows each average once it
/// is measured, and calls the candidate cold until then, and degraded or warm
/// by its error rate from then on.
pub proof fn status_rows_show_what_is_known<D: Fn(Double) -> Double>(
    c: ResolvedCandidate,
    tracker: &Tracker,
    error_rate: &D,
    row: StatusRow,
)
    requires
        reports(c, tracker, error_rate, row),
    ensures
        row.provider@ == c.provider_name@,
        row.model@ == c.model@,
        ({
            let st = tracker@[c.stats_index as int];
            let streaming = st.average(LatencyMode::Streaming);
            let whole = st.average(LatencyMode::NonStreaming);
            &&& streaming == u64::MAX <==> row.streaming_ewma_ms is None
            &&& streaming < u64::MAX ==> row.streaming_ewma_ms == Some(streaming)
            &&& whole == u64::MAX <==> row.nonstreaming_ewma_ms is None
            &&& whole < u64::MAX ==> row.nonstreaming_ewma_ms == Some(whole)
            &&& call_ensures(error_rate, (st.rate(),), row.error_rate)
            &&& row.health == Health::Cold <==> streaming == u64::MAX && whole == u64::MAX
            &&& row.health == Health::Degraded ==> judged(c, tracker, error_rate, true)
            &&& row.health == Health::Warm ==> judged(c, tracker, error_rate, false)
        }),
{
}

/// Candidates are reported in order, each unless one in front of it has its
/// slot.
pub proof fn slots_are_reported_in_order(rcs: Seq<ResolvedCandidate>, rc: ResolvedCandidate)
    ensures
        first_seen(Seq::empty()) == Seq::<ResolvedCandidate>::empty(),
        first_seen(rcs.push(rc)) == if exists|i: int|
            0 <= i < rcs.len() && (#[trigger] rcs[i]).stats_index == rc.stats_index {
            first_seen(rcs)
        } else {
            first_seen(rcs).push(rc)
        },
{
    let all = rcs.push(rc);
    assert(all.drop_last() =~= rcs);
    if exists|i: int| 0 <= i < rcs.len() && (#[trigger] rcs[i]).stats_index == rc.stats_index {
        let i = choose|i: int| 0 <= i < rcs.len() && (#[trigger] rcs[i]).stats_index == rc.stats_index;
        assert(all[i].stats_index == rc.stats_index);
        assert(seen_before(all, all.len() - 1));
    } else if seen_before(all, all.len() - 1) {
        let j = choose|j: int|
            0 <= j < all.len() - 1 && (#[trigger] all[j]).stats_index == all[all.len()
                - 1].stats_index;
        assert(rcs[j].stats_index == rc.stats_index);
    }
}

/// The candidate of each pair, at its place.
pub proof fn pairs_have_a_candidate_each(ps: Seq<(Seq<char>, ResolvedCandidate)>, i: int)
    ensures
        second(ps).len() == ps.len(),
        0 <= i < ps.len() ==> second(ps)[i] == ps[i].1,
{
}

/// Each thing a listener does has one cause: it serves a connection, goes on
/// after a failure, and begins to drain while it accepts; it finishes, or
/// abandons what is left, while it drains. Nothing else moves it on.
pub proof fn listeners_act_on_one_cause(phase: Phase, event: Event)
    ensures
        step_of(phase, event).1 == Action::Serve <==> phase == Phase::Accepting && event
            == Event::Connected,
        step_of(phase, event).1 == Action::KeepAccepting <==> phase == Phase::Accepting && event
            == Event::AcceptFailed,
        step_of(phase, event).1 == Action::BeginDrain <==> phase == Phase::Accepting && event
            == Event::ShutdownRequested,
        step_of(phase, event).1 == Action::Finish <==> phase == Phase::Draining && event
            == Event::AllDrained,
        step_of(phase, event).1 == Action::Abandon <==> phase == Phase::Draining && event
            == Event::DrainTimedOut,
        step_of(phase, event).0 != phase <==> {
            ||| step_of(phase, event).1 == Action::BeginDrain
            ||| step_of(phase, event).1 == Action::Finish
            ||| step_of(phase, event).1 == Action::Abandon
        },
        phase == Phase::Accepting ==> step_of(phase, event).0 != Phase::Stopped,
        phase == Phase::Draining ==> step_of(phase, event).0 != Phase::Accepting,
{
}

/// Events move a listener on one by one.
pub proof fn events_happen_one_by_one(start: Phase, events: Seq<Event>, event: Event)
    ensures
        phase_after(start, Seq::empty()) == start,
        phase_after(start, events.push(event)) == step_of(phase_after(start, events), event).0,
{
    assert(events.push(event).drop_last() =~= events);
}

/// A header counts by its bytes, where there is one.
pub proof fn headers_count_by_their_bytes(h: &[u8])
    ensures
        header_bytes(Some(h)) == Some(h@),
        header_bytes(None) is None,
{
}

/// What `route` gives: each endpoint by one method and path.
pub proof fn route_reaches_endpoints(
    method: &str,
    path: &str,
    surface: Surface,
    shutting_down: bool,
    r: Route,
)
    requires
        call_ensures(route, (method, path, surface, shutting_down), r),
    ensures
        r is Status <==> method@ == "GET"@ && path@ == "/status"@,
        r is Metrics <==> method@ == "GET"@ && path@ == "/metrics"@,
        r is Proxy <==> method@ == "POST"@ && surface == Surface::Full,
        r matches Route::Answer(reply) ==> {
            &&& reply.status == 200 || reply.status == 503 <==> method@ == "GET"@ && (path@
                == "/health"@ || path@ == "/healthz"@)
            &&& reply.status == 503 ==> shutting_down && reply.body@
                == "{\"status\":\"shutting_down\"}"@
            &&& reply.status == 200 ==> !shutting_down && reply.body@ == "{\"status\":\"ok\"}"@
            &&& reply.status == 404 ==> method@ == "GET"@
            &&& reply.status == 405 ==> method@ != "GET"@
            &&& reply.status == 200 || reply.status == 503 || reply.status == 404 || reply.status
                == 405
        },
{
    endpoints_are_reached_by_method_and_path(method@, path@, surface, shutting_down, r);
}

/// What `admission` gives: a body of a known length within the cap is taken in
/// where its kilobytes are free, and shed for a second where they are not; any
/// other is refused, and takes nothing.
pub proof fn bodies_are_admitted_while_there_is_room(
    budget: &mut BufferBudget,
    declared: Option<u64>,
    r: Admission,
)
    requires
        call_ensures(admission, (budget, declared), r),
    ensures
        final(budget).total() == old(budget).total(),
        final(budget).cap() == old(budget).cap(),
        !(r is Granted) ==> final(budget).free() == old(budget).free(),
        r is Granted || r is Shed ==> declared is Some && declared->0 <= old(budget).cap(),
        r matches Admission::Granted(n) ==> {
            &&& final(budget).free() + n == old(budget).free()
            &&& n >= 1
            &&& declared->0 <= 0xFFFF_FFFF * 1024 ==> declared->0 <= n * 1024
            &&& n > 1 ==> (n - 1) * 1024 < declared->0
        },
        r matches Admission::Shed(reply) ==> reply.status == 429 && reply.retry_after == Some(1u64)
            && (declared->0 <= 0xFFFF_FFFF * 1024 ==> old(budget).free() * 1024 < declared->0
            || old(budget).free() == 0),
        r matches Admission::Refused(reply) ==> {
            &&& reply.status == 411 || reply.status == 413
            &&& declared is None ==> reply.status == 411
            &&& declared is Some && declared->0 <= usize::MAX ==> reply.status == 413
                && declared->0 > old(budget).cap()
        },
{
    if let Some(len) = declared {
        budget::reservations_are_whole_kilobytes(len as int);
    }
}

/// What `settle_response` does: a status from 200 to 299 teaches the candidate
/// a success and its latency, any other an error; either is counted under its
/// status.
pub proof fn responses_are_settled_by_status<
    L: Fn(Double, u64, u64) -> u64,
    R: Fn(Double, Double, Double) -> Double,
>(
    tracker: &mut Tracker,
    alias: &str,
    candidate: &ResolvedCandidate,
    status: u16,
    latency: UpstreamLatency,
    blend_latency: &L,
    blend_rate: &R,
    r: (Sample, Sample),
)
    requires
        call_ensures(
            settle_response::<L, R>,
            (tracker, alias, candidate, status, latency, blend_latency, blend_rate),
            r,
        ),
    ensures
        ({
            let a = old(tracker)@[candidate.stats_index as int];
            let b = final(tracker)@[candidate.stats_index as int];
            let alpha = old(tracker).alpha();
            let mode = match latency {
                UpstreamLatency::Ttfc(_) => LatencyMode::Streaming,
                UpstreamLatency::Total(_) => LatencyMode::NonStreaming,
            };
            &&& status / 100 == 2 ==> {
                &&& call_ensures(
                    blend_rate,
                    (alpha, Double { bits: 0x3FF0_0000_0000_0000 }, a.rate()),
                    b.rate(),
                )
                &&& a.average(mode) == u64::MAX ==> b.average(mode) == crate::tracker::millis(
                    latency.spec_nanos(),
                )
                &&& a.average(mode) < u64::MAX ==> call_ensures(
                    blend_latency,
                    (alpha, crate::tracker::millis(latency.spec_nanos()), a.average(mode)),
                    b.average(mode),
                )
            }
            &&& status / 100 != 2 ==> {
                &&& call_ensures(blend_rate, (alpha, Double { bits: 0 }, a.rate()), b.rate())
                &&& b.average(LatencyMode::Streaming) == a.average(LatencyMode::Streaming)
                &&& b.average(LatencyMode::NonStreaming) == a.average(LatencyMode::NonStreaming)
            }
        }),
        r.0.metric == metrics::Metric::RequestsTotal,
        r.0.update == metrics::Update::Increment,
        r.0.labels@.len() == 4,
        r.0.labels@[3]@ == text::decimal_text(status as nat),
        r.1.update == metrics::Update::Observe(latency.spec_nanos()),
        r.1.metric == metrics::Metric::TtfcSeconds <==> latency is Ttfc,
        r.1.metric == metrics::Metric::LatencySeconds <==> latency is Total,
        r.0.labels@[0]@ == alias@ && r.1.labels@[0]@ == alias@,
        r.0.labels@[1]@ == candidate.provider_name@ && r.1.labels@[1]@ == candidate.provider_name@,
        r.0.labels@[2]@ == candidate.model@ && r.1.labels@[2]@ == candidate.model@,
{
    let x = metrics::label_views(r.0.labels@);
    let y = metrics::label_views(r.1.labels@);
    metrics::series_are_told_apart_by_labels(r.0.metric);
    assert(x[0] == r.0.labels@[0]@ && x[1] == r.0.labels@[1]@);
    assert(x[2] == r.0.labels@[2]@ && x[3] == r.0.labels@[3]@);
    assert(y[0] == r.1.labels@[0]@ && y[1] == r.1.labels@[1]@ && y[2] == r.1.labels@[2]@);
}

/// What `settle_failure` does: it teaches the candidate an error, counts it,
/// and answers 502 with the reason.
pub proof fn failures_are_settled_as_errors<R: Fn(Double, Double, Double) -> Double>(
    tracker: &mut Tracker,
    alias: &str,
    candidate: &ResolvedCandidate,
    error: &str,
    blend_rate: &R,
    r: (Sample, Reply),
)
    requires
        call_ensures(settle_failure::<R>, (tracker, alias, candidate, error, blend_rate), r),
    ensures
        ({
            let a = old(tracker)@[candidate.stats_index as int];
            let b = final(tracker)@[candidate.stats_index as int];
            &&& call_ensures(
                blend_rate,
                (old(tracker).alpha(), Double { bits: 0 }, a.rate()),
                b.rate(),
            )
            &&& b.average(LatencyMode::Streaming) == a.average(LatencyMode::Streaming)
            &&& b.average(LatencyMode::NonStreaming) == a.average(LatencyMode::NonStreaming)
        }),
        r.0.metric == metrics::Metric::ErrorsTotal,
        r.0.update == metrics::Update::Increment,
        r.0.labels@.len() == 3,
        r.0.labels@[0]@ == alias@,
        r.0.labels@[1]@ == candidate.provider_name@,
        r.0.labels@[2]@ == candidate.model@,
        r.1.status == 502,
        r.1.body@ == "{\"error\":{\"message\":"@ + json::quoted("upstream error: "@ + error@)
            + ",\"type\":\"invalid_request_error\"}}"@,
{
    let x = metrics::label_views(r.0.labels@);
    metrics::series_are_told_apart_by_labels(r.0.metric);
    assert(x[0] == r.0.labels@[0]@ && x[1] == r.0.labels@[1]@ && x[2] == r.0.labels@[2]@);
}

/// What `response_headers` gives: every header from upstream with its value,
/// but for ten that are not relayed and two that the sidecar sets, and those
/// two at the end.
pub proof fn responses_carry_the_upstream_headers(
    upstream: &Vec<(String, Vec<u8>)>,
    candidate: &ResolvedCandidate,
    r: Vec<(String, Vec<u8>)>,
    i: int,
)
    requires
        call_ensures(response_headers, (upstream, candidate), r),
        0 <= i < upstream@.len(),
    ensures
        r@.len() >= 2,
        r@[r@.len() - 2].0@ == "x-sturnus-provider"@,
        r@[r@.len() - 2].1@ == candidate.provider_header@,
        r@[r@.len() - 1].0@ == "x-session-affinity"@,
        r@[r@.len() - 1].1@ == candidate.affinity_header@,
        ({
            let n = proxy::lower_text(upstream@[i].0@);
            n != "connection"@ && n != "transfer-encoding"@ && n != "te"@ && n != "trailer"@ && n
                != "upgrade"@ && n != "proxy-authenticate"@ && n != "proxy-authorization"@ && n
                != "set-cookie"@ && n != "alt-svc"@ && n != "keep-alive"@ && n
                != "x-sturnus-provider"@ && n != "x-session-affinity"@
        }) ==> exists|k: int|
            0 <= k < r@.len() - 2 && (#[trigger] r@[k]).0@ == upstream@[i].0@ && r@[k].1@
                == upstream@[i].1@,
        forall|k: int|
            0 <= k < r@.len() - 2 ==> {
                let n = proxy::lower_text((#[trigger] r@[k]).0@);
                n != "connection"@ && n != "transfer-encoding"@ && n != "te"@ && n != "trailer"@
                    && n != "upgrade"@ && n != "proxy-authenticate"@ && n
                    != "proxy-authorization"@ && n != "set-cookie"@ && n != "alt-svc"@ && n
                    != "keep-alive"@ && n != "x-sturnus-provider"@ && n != "x-session-affinity"@
            },
{
    let hs = proxy::header_views(upstream@);
    let out = proxy::header_views(r@);
    let clean = proxy::kept_headers(hs, proxy::relayed());
    let kept = proxy::kept_headers(clean, not_own());
    let h = hs[i];
    assert(out.len() == r@.len());
    assert(out[r@.len() - 2] == (r@[r@.len() - 2].0@, r@[r@.len() - 2].1@));
    assert(out[r@.len() - 1] == (r@[r@.len() - 1].0@, r@[r@.len() - 1].1@));
    proxy::headers_relayed_or_stripped(hs, h);
    lemma_kept_contains(clean, not_own(), h);
    lemma_kept_excludes(clean, not_own());
    assert(hs.contains(h));
    if kept.contains(h) {
        let k = choose|k: int| 0 <= k < kept.len() && #[trigger] kept[k] == h;
        assert(out[k] == kept[k]);
        assert(out[k] == (r@[k].0@, r@[k].1@));
    }
    assert forall|k: int| 0 <= k < r@.len() - 2 implies {
        let n = proxy::lower_text((#[trigger] r@[k]).0@);
        n != "connection"@ && n != "transfer-encoding"@ && n != "te"@ && n != "trailer"@ && n
            != "upgrade"@ && n != "proxy-authenticate"@ && n != "proxy-authorization"@ && n
            != "set-cookie"@ && n != "alt-svc"@ && n != "keep-alive"@ && n
            != "x-sturnus-provider"@ && n != "x-session-affinity"@
    } by {
        let g = out[k];
        assert(g == (r@[k].0@, r@[k].1@));
        assert(kept[k] == g);
        assert(not_own()(kept[k].0));
        lemma_kept_contains(clean, not_own(), g);
        assert(kept.contains(g));
        proxy::headers_relayed_or_stripped(hs, g);
    }
}

proof fn lemma_kept_contains(
    hs: Seq<(Seq<char>, Seq<u8>)>,
    keep: spec_fn(Seq<char>) -> bool,
    h: (Seq<char>, Seq<u8>),
)
    ensures
        proxy::kept_headers(hs, keep).contains(h) <==> hs.contains(h) && keep(h.0),
    decreases hs.len(),
{
    if hs.len() > 0 {
        let init = hs.drop_last();
        let rest = proxy::kept_headers(init, keep);
        let out = proxy::kept_headers(hs, keep);
        let last = hs[hs.len() - 1];
        lemma_kept_contains(init, keep, h);
        if out.contains(h) {
            let k = choose|k: int| 0 <= k < out.len() && #[trigger] out[k] == h;
            if k < rest.len() {
                assert(rest[k] == h);
                assert(init.contains(h));
                let j = choose|j: int| 0 <= j < init.len() && #[trigger] init[j] == h;
                assert(hs[j] == h);
            } else {
                assert(last == h);
            }
        }
        if hs.contains(h) && keep(h.0) {
            let j = choose|j: int| 0 <= j < hs.len() && #[trigger] hs[j] == h;
            if j < init.len() {
                assert(init[j] == h);
                assert(rest.contains(h));
                let k = choose|k: int| 0 <= k < rest.len() && #[trigger] rest[k] == h;
                assert(out[k] == h);
            } else {
                assert(out[out.len() - 1] == h);
            }
        }
    }
}

/// What `prepare_request` gives on success: the alias and the wish for a
/// stream as the body has them, and a body that reads as the one that came but
/// for the model, which is the candidate's, and for the labels where the
/// candidate has some to attribute to.
pub proof fn requests_are_forwarded_as_they_came<
    'm,
    E: Fn(u64, Double) -> Double,
    S: Fn(Double, Standing) -> usize,
    D: Fn(Double) -> Double,
>(
    bytes: &[u8],
    affinity: Option<&[u8]>,
    map: &'m ModelMap,
    tracker: &Tracker,
    rr: &mut RoundRobinState,
    k: Double,
    effective: &E,
    share: &S,
    error_rate: &D,
    r: Result<Forward<'m>, Reply>,
)
    requires
        call_ensures(
            prepare_request::<E, S, D>,
            (bytes, affinity, map, tracker, rr, k, effective, share, error_rate),
            r,
        ),
    ensures
        json::object_entries(bytes@) is Err ==> (r matches Err(reply) && reply.status == 400),
        r is Err ==> final(rr)@ == old(rr)@,
        r matches Ok(f) ==> json::object_entries(bytes@) is Ok && f.body@ is Some && {
            let es = json::object_entries(bytes@)->Ok_0;
            let out = json::object_entries(f.body@->0)->Ok_0;
            &&& body::lookup(es, "model"@) is Some && json::string_value(
                body::lookup(es, "model"@)->0,
            ) == Some(f.alias@)
            &&& f.streaming <==> body::lookup(es, "stream"@) is Some && json::is_word(
                body::lookup(es, "stream"@)->0,
                "true"@,
            )
            &&& json::object_entries(f.body@->0) is Ok
            &&& body::lookup(out, "model"@) == Some(json::quoted(f.candidate.model@))
            &&& forall|key: Seq<char>|
                key != "model"@ && (f.candidate.attribution_labels is Some ==> key != "labels"@)
                    ==> body::lookup(out, key) == #[trigger] body::lookup(es, key)
            &&& f.candidate.attribution_labels is None && (layout::members(bytes@)->0).len()
                == es.len() ==> {
                let m = (layout::members(bytes@)->0)[body::position(es, "model"@)];
                f.body@->0 == bytes@.take(m.start) + vstd::utf8::encode_utf8(
                    json::quoted(f.candidate.model@),
                ) + bytes@.skip(m.end)
            }
        },
{
    if let Ok(f) = r {
        let es = json::object_entries(bytes@)->Ok_0;
        let own = proxy::candidate_labels(*f.candidate);
        let l = body::layout_for(bytes@, es);
        let sent = f.body@->0;
        let out = choose|out: Entries|
            {
                &&& #[trigger] proxy::prepared(es, f.candidate.model@, own, out)
                &&& sent == proxy::rewritten(es, l, out)
                &&& json::object_entries(sent) == Ok::<Entries, (bool, Seq<char>)>(out)
            };
        proxy::other_fields_pass_through(es, f.candidate.model@, own, out);
        if body::lookup(es, "stream"@) is Some {
            streams_are_asked_for_by_a_true_field(es, body::lookup(es, "stream"@)->0);
        }
    }
}

/// What the small questions about a probe, a connection and a listener give.
pub proof fn probes_and_listeners_are_judged(
    status: u16,
    healthy: bool,
    listen: &str,
    url: String,
    error: &str,
    reportable: bool,
    phase: Phase,
    shutting_down: bool,
    observed: bool,
)
    requires
        call_ensures(is_healthy, (status,), healthy),
        call_ensures(health_url, (listen,), url),
        call_ensures(is_reportable, (error,), reportable),
        call_ensures(Phase::is_shutting_down, (phase,), shutting_down),
        call_ensures(Phase::keeps_observability, (phase,), observed),
    ensures
        healthy <==> status == 200,
        url@ == "http://"@ + listen@ + "/health"@,
        reportable <==> !exists|a: Seq<char>, b: Seq<char>|
            error@ == #[trigger] (a + "connection closed"@ + b),
        shutting_down <==> phase == Phase::Draining || phase == Phase::Stopped,
        observed <==> phase == Phase::Accepting || phase == Phase::Draining,
{
    text::occurrences_stand_between_two_texts(error@, "connection closed"@);
}

/// What is answered where a body cannot be read, and what a row calls the
/// health of its candidate.
pub proof fn unread_bodies_are_answered(
    over_cap: bool,
    cap: usize,
    reply: Reply,
    health: Health,
    word: &'static str,
)
    requires
        call_ensures(body_read_failure, (over_cap, cap), reply),
        call_ensures(Health::as_str, (health,), word),
    ensures
        over_cap ==> reply.status == 413,
        !over_cap ==> reply.status == 400 && reply.body@ == "{\"error\":{\"message\":"@
            + json::quoted("failed to read request body"@)
            + ",\"type\":\"invalid_request_error\"}}"@,
        health == Health::Cold ==> word@ == "cold"@,
        health == Health::Degraded ==> word@ == "degraded"@,
        health == Health::Warm ==> word@ == "warm"@,
{
}

/// What `status_rows` gives: a row for every slot that a candidate of the map
/// has, and no two for one.
pub proof fn status_reports_every_candidate_once<D: Fn(Double) -> Double>(
    map: &ModelMap,
    tracker: &Tracker,
    error_rate: &D,
    rows: Vec<StatusRow>,
    n: int,
)
    requires
        call_ensures(status_rows::<D>, (map, tracker, error_rate), rows),
        0 <= n < model_map::alias_pairs(map@).len(),
    ensures
        exists|i: int, c: ResolvedCandidate|
            {
                &&& 0 <= i < rows@.len()
                &&& #[trigger] reports(c, tracker, error_rate, rows@[i])
                &&& c.stats_index == model_map::alias_pairs(map@)[n].1.stats_index
            },
        rows@.len() <= model_map::alias_pairs(map@).len(),
{
    let rcs = second(model_map::alias_pairs(map@));
    let shown = first_seen(rcs);
    each_slot_is_reported_once(rcs);
    lemma_first_seen_is_no_longer(rcs);
    assert(rcs[n] == model_map::alias_pairs(map@)[n].1);
    assert(model_map::occupied(shown, rcs[n].stats_index as int));
    let i = choose|i: int|
        0 <= i < shown.len() && (#[trigger] shown[i]).stats_index == rcs[n].stats_index;
    assert(reports(shown[i], tracker, error_rate, rows@[i]));
}

proof fn lemma_first_seen_is_no_longer(rcs: Seq<ResolvedCandidate>)
    ensures
        first_seen(rcs).len() <= rcs.len(),
    decreases rcs.len(),
{
    if rcs.len() > 0 {
        lemma_first_seen_is_no_longer(rcs.drop_last());
    }
}

/// When `prepare_request` succeeds, and what it answers when it does not: a
/// request is taken exactly where its bytes are a JSON object that names an
/// alias which somebody serves.
pub proof fn requests_are_taken_where_somebody_serves_them<
    'm,
    E: Fn(u64, Double) -> Double,
    S: Fn(Double, Standing) -> usize,
    D: Fn(Double) -> Double,
>(
    bytes: &[u8],
    affinity: Option<&[u8]>,
    map: &'m ModelMap,
    tracker: &Tracker,
    rr: &mut RoundRobinState,
    k: Double,
    effective: &E,
    share: &S,
    error_rate: &D,
    r: Result<Forward<'m>, Reply>,
)
    requires
        call_ensures(
            prepare_request::<E, S, D>,
            (bytes, affinity, map, tracker, rr, k, effective, share, error_rate),
            r,
        ),
    ensures
        r is Ok <==> {
            &&& json::object_entries(bytes@) is Ok
            &&& body::lookup(json::object_entries(bytes@)->Ok_0, "model"@) is Some
            &&& json::string_value(
                body::lookup(json::object_entries(bytes@)->Ok_0, "model"@)->0,
            ) is Some
            &&& model_map::candidates_of(
                map@,
                json::string_value(
                    body::lookup(json::object_entries(bytes@)->Ok_0, "model"@)->0,
                )->0,
            ) is Some
            &&& model_map::candidates_of(
                map@,
                json::string_value(
                    body::lookup(json::object_entries(bytes@)->Ok_0, "model"@)->0,
                )->0,
            )->0.len() > 0
        },
        json::object_entries(bytes@) matches Err((is_data, message)) ==> (r matches Err(reply)
            && reply.is_error(
            400,
            if is_data {
                "request body must be a JSON object"@
            } else {
                "request body is not valid JSON: "@ + message
            },
        )),
        r is Err && json::object_entries(bytes@) is Ok ==> (r->Err_0).status == 400 || (
        r->Err_0).status == 502,
        r is Err && json::object_entries(bytes@) is Ok ==> ((r->Err_0).status == 502 <==> {
            let raw = body::lookup(json::object_entries(bytes@)->Ok_0, "model"@);
            &&& raw is Some && json::string_value(raw->0) is Some
            &&& model_map::candidates_of(map@, json::string_value(raw->0)->0) is Some
        }),
{
}

/// To whom `prepare_request` sends a request: to the candidate of its alias
/// that it is pinned to, which leaves the schedule alone, unless that one is
/// degraded; and else to the one that the alias's tick selects among all of
/// them, by the averages of the request's own mode, which moves the schedule on.
pub proof fn requests_go_to_their_pin_or_by_schedule<
    'm,
    E: Fn(u64, Double) -> Double,
    S: Fn(Double, Standing) -> usize,
    D: Fn(Double) -> Double,
>(
    bytes: &[u8],
    affinity: Option<&[u8]>,
    map: &'m ModelMap,
    tracker: &Tracker,
    rr: &mut RoundRobinState,
    k: Double,
    effective: &E,
    share: &S,
    error_rate: &D,
    f: Forward<'m>,
)
    requires
        call_ensures(
            prepare_request::<E, S, D>,
            (bytes, affinity, map, tracker, rr, k, effective, share, error_rate),
            Ok::<Forward<'m>, Reply>(f),
        ),
    ensures
        ({
            let cs = model_map::candidates_of(map@, f.alias@)->0;
            let header = match affinity {
                Some(b) => Some(b@),
                None => None,
            };
            let mode = if f.streaming {
                LatencyMode::Streaming
            } else {
                LatencyMode::NonStreaming
            };
            let tick = router::tick_of(old(rr)@, f.alias@);
            let scheduled = final(rr)@ == router::ticked(old(rr)@, f.alias@) && router::selected(
                cs,
                tracker,
                tick,
                k,
                mode,
                effective,
                share,
                *f.candidate,
            );
            &&& pinned(cs, header) is None ==> scheduled
            &&& pinned(cs, header) matches Some(i) ==> {
                ||| {
                    &&& *f.candidate == cs[i] && final(rr)@ == old(rr)@
                    &&& judged(cs[i], tracker, error_rate, false)
                }
                ||| scheduled && judged(cs[i], tracker, error_rate, true)
            }
        }),
{
}

/// What labels a request is attributed with: those of its candidate, over the
/// client's own.
pub proof fn requests_are_attributed_to_the_labels_of_their_candidate<
    'm,
    E: Fn(u64, Double) -> Double,
    S: Fn(Double, Standing) -> usize,
    D: Fn(Double) -> Double,
>(
    bytes: &[u8],
    affinity: Option<&[u8]>,
    map: &'m ModelMap,
    tracker: &Tracker,
    rr: &mut RoundRobinState,
    k: Double,
    effective: &E,
    share: &S,
    error_rate: &D,
    f: Forward<'m>,
)
    requires
        call_ensures(
            prepare_request::<E, S, D>,
            (bytes, affinity, map, tracker, rr, k, effective, share, error_rate),
            Ok::<Forward<'m>, Reply>(f),
        ),
    ensures
        f.candidate.attribution_labels matches Some(ls) ==> {
            let es = json::object_entries(bytes@)->Ok_0;
            let out = json::object_entries(f.body@->0)->Ok_0;
            let own = Seq::new(ls@.len(), |i: int| (ls@[i].0@, ls@[i].1@));
            let client = match body::lookup(es, "labels"@) {
                Some(raw) if crate::labels::object_value(raw) is Some =>
                    crate::labels::object_value(raw)->0,
                _ => Map::empty(),
            };
            body::lookup(out, "labels"@) is Some && crate::labels::is_object_of(
                body::lookup(out, "labels"@)->0,
                proxy::merged(client, own),
            )
        },
{
    if let Some(ls) = f.candidate.attribution_labels {
        let es = json::object_entries(bytes@)->Ok_0;
        let own = Seq::new(ls@.len(), |i: int| (ls@[i].0@, ls@[i].1@));
        let labels = proxy::candidate_labels(*f.candidate);
        assert(labels->0 =~= own);
        let l = body::layout_for(bytes@, es);
        let sent = f.body@->0;
        let out = choose|out: Entries|
            {
                &&& #[trigger] proxy::prepared(es, f.candidate.model@, labels, out)
                &&& sent == proxy::rewritten(es, l, out)
                &&& json::object_entries(sent) == Ok::<Entries, (bool, Seq<char>)>(out)
            };
        proxy::labels_are_merged_over_those_of_the_client(es, f.candidate.model@, own, out);
    }
}

/// What the headers of a reply are, and what an error reply holds.
pub proof fn replies_are_sent_as_json(
    reply: &Reply,
    hs: Vec<(&'static str, String)>,
    status: u16,
    message: &str,
    e: Reply,
)
    requires
        call_ensures(Reply::headers, (reply,), hs),
        call_ensures(json_error, (status, message), e),
    ensures
        hs@.len() >= 1 && hs@[0].0@ == "content-type"@ && hs@[0].1@ == "application/json"@,
        reply.retry_after is None <==> hs@.len() == 1,
        reply.retry_after matches Some(secs) ==> hs@.len() == 2 && hs@[1].0@ == "retry-after"@
            && hs@[1].1@ == text::decimal_text(secs as nat),
        e.status == status && e.retry_after is None,
        e.body@ == "{\"error\":{\"message\":"@ + json::quoted(message@)
            + ",\"type\":\"invalid_request_error\"}}"@,
{
    let views = proxy::header_texts(hs@);
    assert(views.len() == hs@.len());
    assert(views[0] == (hs@[0].0@, hs@[0].1@));
    if hs@.len() > 1 {
        assert(views[1] == (hs@[1].0@, hs@[1].1@));
    }
}

} // verus!
