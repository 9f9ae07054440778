//! The metrics: what they are called and what is counted when.
use crate::model_map;
use crate::model_map::{ModelMap, ResolvedCandidate};
use crate::proxy::UpstreamLatency;
use crate::text;
use crate::text::decimal;
use crate::tracker::LatencyMode;
use vstd::prelude::*;

verus! {

/// One of the sidecar's metrics.
#[derive(Debug, Clone, Copy, PartialEq, Eq, Structural)]
pub enum Metric {
    /// Completed responses, whatever their status.
    RequestsTotal,
    /// Streaming time-to-first-chunk.
    TtfcSeconds,
    /// Non-streaming full response time.
    LatencySeconds,
    /// Failures that never produced a response.
    ErrorsTotal,
    /// Requests shed with 429 because the aggregate buffer budget was full.
    BufferRejectionsTotal,
}

impl Metric {
    /// The metric's name.
    pub open spec fn spec_name(self) -> Seq<char> {
        match self {
            Metric::RequestsTotal => "sturnus_requests_total"@,
            Metric::TtfcSeconds => "sturnus_ttfc_seconds"@,
            Metric::LatencySeconds => "sturnus_latency_seconds"@,
            Metric::ErrorsTotal => "sturnus_errors_total"@,
            Metric::BufferRejectionsTotal => "sturnus_buffer_rejections_total"@,
        }
    }

    /// How many labels its series have.
    pub open spec fn label_count(self) -> nat {
        match self {
            Metric::RequestsTotal => 4,
            Metric::BufferRejectionsTotal => 0,
            _ => 3,
        }
    }

    /// The names of its labels.
    pub open spec fn spec_labels(self) -> Seq<Seq<char>> {
        match self {
            Metric::RequestsTotal => seq!["alias"@, "provider"@, "model"@, "status_code"@],
            Metric::BufferRejectionsTotal => seq![],
            _ => seq!["alias"@, "provider"@, "model"@],
        }
    }

    /// The metric's name.
    pub fn name(self) -> (r: &'static str)
        ensures
            r@ == self.spec_name(),
    {
        match self {
            Metric::RequestsTotal => "sturnus_requests_total",
            Metric::TtfcSeconds => "sturnus_ttfc_seconds",
            Metric::LatencySeconds => "sturnus_latency_seconds",
            Metric::ErrorsTotal => "sturnus_errors_total",
            Metric::BufferRejectionsTotal => "sturnus_buffer_rejections_total",
        }
    }

    /// The metric's help text.
    pub fn help(self) -> (r: &'static str)
        ensures
            r@ == match self {
                Metric::RequestsTotal => "Total upstream requests"@,
                Metric::TtfcSeconds => "Streaming time-to-first-chunk from upstream"@,
                Metric::LatencySeconds => "Non-streaming full response time from upstream"@,
                Metric::ErrorsTotal => "Connection failures before reaching upstream"@,
                Metric::BufferRejectionsTotal =>
                    "Requests rejected because the aggregate buffer budget was full"@,
            },
    {
        match self {
            Metric::RequestsTotal => "Total upstream requests",
            Metric::TtfcSeconds => "Streaming time-to-first-chunk from upstream",
            Metric::LatencySeconds => "Non-streaming full response time from upstream",
            Metric::ErrorsTotal => "Connection failures before reaching upstream",
            Metric::BufferRejectionsTotal =>
                "Requests rejected because the aggregate buffer budget was full",
        }
    }

    /// The names of its labels.
    pub fn labels(self) -> (r: Vec<&'static str>)
        ensures
            r@.map_values(|s: &'static str| s@) == self.spec_labels(),
            r@.len() == self.label_count(),
    {
        let mut r: Vec<&'static str> = Vec::new();
        match self {
            Metric::BufferRejectionsTotal => {},
            Metric::RequestsTotal => {
                r.push("alias");
                r.push("provider");
                r.push("model");
                r.push("status_code");
            },
            _ => {
                r.push("alias");
                r.push("provider");
                r.push("model");
            },
        }
        assert(r@.map_values(|s: &'static str| s@) =~= self.spec_labels());
        r
    }

    /// The histogram a latency belongs to. Two metrics, not one with a mode
    /// label: they measure different things.
    pub fn of_latency(mode: LatencyMode) -> (r: Metric)
        ensures
            r == match mode {
                LatencyMode::Streaming => Metric::TtfcSeconds,
                LatencyMode::NonStreaming => Metric::LatencySeconds,
            },
    {
        match mode {
            LatencyMode::Streaming => Metric::TtfcSeconds,
            LatencyMode::NonStreaming => Metric::LatencySeconds,
        }
    }
}

/// The upper bounds of the latency buckets, in milliseconds.
pub fn latency_buckets_ms() -> (r: Vec<u64>)
    ensures
        r@ == seq![100u64, 250, 500, 1000, 2500, 5000, 10000, 30000],
{
    let r: Vec<u64> = vec![100, 250, 500, 1000, 2500, 5000, 10000, 30000];
    assert(r@ =~= seq![100u64, 250, 500, 1000, 2500, 5000, 10000, 30000]);
    r
}

/// The content type of the metrics as text.
pub fn content_type() -> (r: &'static str)
    ensures
        r@ == "text/plain; version=0.0.4; charset=utf-8"@,
{
    "text/plain; version=0.0.4; charset=utf-8"
}

/// What is done to a series.
#[derive(Debug, Clone, Copy, PartialEq, Eq, Structural)]
pub enum Update {
    /// A series is there, at zero until something is counted.
    Declare,
    /// A counter goes up by one.
    Increment,
    /// A histogram takes in a duration, in nanoseconds.
    Observe(u128),
}

/// An update of the series of a metric that has these label values.
#[derive(Debug)]
pub struct Sample {
    pub metric: Metric,
    pub labels: Vec<String>,
    pub update: Update,
}

/// The values behind some labels.
pub open spec fn label_views(ls: Seq<String>) -> Seq<Seq<char>> {
    ls.map_values(|l: String| l@)
}

fn series_labels(alias: &str, provider: &str, model: &str) -> (r: Vec<String>)
    ensures
        label_views(r@) == seq![alias@, provider@, model@],
        r@.len() == 3,
{
    let mut r: Vec<String> = Vec::new();
    r.push(alias.to_owned());
    r.push(provider.to_owned());
    r.push(model.to_owned());
    assert(label_views(r@) =~= seq![alias@, provider@, model@]);
    r
}

/// A response came, of whatever status: it is counted under its status, and
/// its latency goes to the histogram of what was measured.
pub fn response_samples(
    alias: &str,
    provider: &str,
    model: &str,
    status: u16,
    latency: UpstreamLatency,
) -> (r: (Sample, Sample))
    ensures
        r.0.metric == Metric::RequestsTotal,
        label_views(r.0.labels@) == seq![
            alias@,
            provider@,
            model@,
            text::decimal_text(status as nat),
        ],
        r.0.update == Update::Increment,
        r.1.metric == match latency.spec_mode() {
            LatencyMode::Streaming => Metric::TtfcSeconds,
            LatencyMode::NonStreaming => Metric::LatencySeconds,
        },
        label_views(r.1.labels@) == seq![alias@, provider@, model@],
        r.1.update == Update::Observe(latency.spec_nanos()),
        r.0.labels@.len() == r.0.metric.label_count(),
        r.1.labels@.len() == r.1.metric.label_count(),
{
    let mut labels = series_labels(alias, provider, model);
    let ghost before = labels@;
    labels.push(decimal(status as u64));
    assert(label_views(labels@) =~= label_views(before).push(text::decimal_text(status as nat)));
    assert(label_views(labels@) =~= seq![
        alias@,
        provider@,
        model@,
        text::decimal_text(status as nat),
    ]);
    (
        Sample { metric: Metric::RequestsTotal, labels, update: Update::Increment },
        Sample {
            metric: Metric::of_latency(latency.mode()),
            labels: series_labels(alias, provider, model),
            update: Update::Observe(latency.nanos()),
        },
    )
}

/// No response came.
pub fn failure_sample(alias: &str, provider: &str, model: &str) -> (r: Sample)
    ensures
        r.metric == Metric::ErrorsTotal,
        label_views(r.labels@) == seq![alias@, provider@, model@],
        r.update == Update::Increment,
        r.labels@.len() == r.metric.label_count(),
{
    Sample {
        metric: Metric::ErrorsTotal,
        labels: series_labels(alias, provider, model),
        update: Update::Increment,
    }
}

/// Whether a sample declares the error series of an alias and candidate.
pub open spec fn declares(s: Sample, pair: (Seq<char>, ResolvedCandidate)) -> bool {
    &&& s.metric == Metric::ErrorsTotal
    &&& label_views(s.labels@) == seq![pair.0, pair.1.provider_name@, pair.1.model@]
    &&& s.update == Update::Declare
    &&& s.labels@.len() == s.metric.label_count()
}

/// The error series of every alias and candidate, declared at the start so
/// that a missing one is not mistaken for "no errors".
pub fn zero_error_samples(map: &ModelMap) -> (r: Vec<Sample>)
    ensures
        r@.len() == model_map::alias_pairs(map@).len(),
        forall|i: int|
            0 <= i < r@.len() ==> declares(#[trigger] r@[i], model_map::alias_pairs(map@)[i]),
{
    let pairs = map.iter();
    let ghost view = |p: (&str, &ResolvedCandidate)| (p.0@, *p.1);
    let mut r: Vec<Sample> = Vec::new();
    let mut i: usize = 0;
    while i < pairs.len()
        invariant
            i <= pairs@.len(),
            r@.len() == i,
            view == (|p: (&str, &ResolvedCandidate)| (p.0@, *p.1)),
            forall|j: int| 0 <= j < i ==> declares(#[trigger] r@[j], pairs@.map_values(view)[j]),
        decreases pairs@.len() - i,
    {
        let (alias, candidate) = pairs[i];
        let labels = series_labels(
            alias,
            candidate.provider_name.as_str(),
            candidate.model.as_str(),
        );
        r.push(Sample { metric: Metric::ErrorsTotal, labels, update: Update::Declare });
        i += 1;
    }
    r
}

/// A request was shed because the buffer budget was full.
pub fn rejection_sample() -> (r: Sample)
    ensures
        r.metric == Metric::BufferRejectionsTotal,
        r.update == Update::Increment,
        r.labels@.len() == r.metric.label_count(),
{
    Sample {
        metric: Metric::BufferRejectionsTotal,
        labels: Vec::new(),
        update: Update::Increment,
    }
}

/// A character that may stand in a metric or label name.
pub open spec fn name_char(c: char) -> bool {
    ('a' <= c && c <= 'z') || c == '_'
}

/// Every metric has a name of its own, made of lower-case letters and
/// underscores.
pub proof fn metric_names_are_valid_and_distinct(a: Metric, b: Metric)
    ensures
        forall|i: int| 0 <= i < a.spec_name().len() ==> name_char(#[trigger] a.spec_name()[i]),
        a.spec_name().len() > 0,
        a != b ==> a.spec_name() != b.spec_name(),
{
    reveal_strlit("sturnus_requests_total");
    reveal_strlit("sturnus_ttfc_seconds");
    reveal_strlit("sturnus_latency_seconds");
    reveal_strlit("sturnus_errors_total");
    reveal_strlit("sturnus_buffer_rejections_total");
    assert("sturnus_requests_total"@.len() == 22);
    assert("sturnus_ttfc_seconds"@.len() == 20);
    assert("sturnus_latency_seconds"@.len() == 23);
    assert("sturnus_errors_total"@.len() == 20);
    assert("sturnus_buffer_rejections_total"@.len() == 31);
    assert("sturnus_ttfc_seconds"@[8] == 't');
    assert("sturnus_errors_total"@[8] == 'e');
}

/// The name of every metric.
pub proof fn metrics_are_named()
    ensures
        Metric::RequestsTotal.spec_name() == "sturnus_requests_total"@,
        Metric::TtfcSeconds.spec_name() == "sturnus_ttfc_seconds"@,
        Metric::LatencySeconds.spec_name() == "sturnus_latency_seconds"@,
        Metric::ErrorsTotal.spec_name() == "sturnus_errors_total"@,
        Metric::BufferRejectionsTotal.spec_name() == "sturnus_buffer_rejections_total"@,
{
}

/// The series of a metric are told apart by alias, provider and model, those
/// of responses by status too, and rejections not at all.
pub proof fn series_are_told_apart_by_labels(m: Metric)
    ensures
        m.spec_labels().len() == m.label_count(),
        m == Metric::BufferRejectionsTotal ==> m.label_count() == 0,
        m != Metric::BufferRejectionsTotal ==> {
            &&& m.label_count() >= 3
            &&& m.spec_labels()[0] == "alias"@
            &&& m.spec_labels()[1] == "provider"@
            &&& m.spec_labels()[2] == "model"@
            &&& m == Metric::RequestsTotal ==> m.label_count() == 4 && m.spec_labels()[3]
                == "status_code"@
            &&& m != Metric::RequestsTotal ==> m.label_count() == 3
        },
{
}

/// Label values are seen one by one.
pub proof fn label_values_are_seen_one_by_one(ls: Seq<String>, i: int)
    ensures
        label_views(ls).len() == ls.len(),
        0 <= i < ls.len() ==> label_views(ls)[i] == ls[i]@,
{
}

/// The series that is declared for a candidate is the one in which its failures
/// are counted.
pub proof fn declared_series_are_those_of_failures(
    s: Sample,
    alias: Seq<char>,
    c: ResolvedCandidate,
)
    requires
        declares(s, (alias, c)),
    ensures
        s.metric == Metric::ErrorsTotal,
        s.update == Update::Declare,
        s.labels@.len() == 3,
        s.labels@[0]@ == alias && s.labels@[1]@ == c.provider_name@ && s.labels@[2]@ == c.model@,
{
    let views = label_views(s.labels@);
    assert(views[0] == s.labels@[0]@ && views[1] == s.labels@[1]@ && views[2] == s.labels@[2]@);
}

/// What a metric is called, and by what its series are told apart.
pub proof fn metrics_tell_their_names(
    m: Metric,
    name: &'static str,
    labels: Vec<&'static str>,
    buckets: Vec<u64>,
    kind: &'static str,
    rejected: Sample,
)
    requires
        call_ensures(Metric::name, (m,), name),
        call_ensures(Metric::labels, (m,), labels),
        call_ensures(latency_buckets_ms, (), buckets),
        call_ensures(content_type, (), kind),
        call_ensures(rejection_sample, (), rejected),
    ensures
        m == Metric::RequestsTotal ==> name@ == "sturnus_requests_total"@ && labels@.len() == 4
            && labels@[3]@ == "status_code"@,
        m == Metric::TtfcSeconds ==> name@ == "sturnus_ttfc_seconds"@ && labels@.len() == 3,
        m == Metric::LatencySeconds ==> name@ == "sturnus_latency_seconds"@ && labels@.len() == 3,
        m == Metric::ErrorsTotal ==> name@ == "sturnus_errors_total"@ && labels@.len() == 3,
        m == Metric::BufferRejectionsTotal ==> name@ == "sturnus_buffer_rejections_total"@
            && labels@.len() == 0,
        labels@.len() >= 3 ==> labels@[0]@ == "alias"@ && labels@[1]@ == "provider"@
            && labels@[2]@ == "model"@,
        buckets@ == seq![100u64, 250, 500, 1000, 2500, 5000, 10000, 30000],
        kind@ == "text/plain; version=0.0.4; charset=utf-8"@,
        rejected.metric == Metric::BufferRejectionsTotal && rejected.update == Update::Increment
            && rejected.labels@.len() == 0,
{
    series_are_told_apart_by_labels(m);
    let views = labels@.map_values(|s: &'static str| s@);
    assert(views.len() == labels@.len());
    assert forall|i: int| 0 <= i < labels@.len() implies #[trigger] views[i] == labels@[i]@ by {}
    if labels@.len() >= 3 {
        assert(views[0] == labels@[0]@ && views[1] == labels@[1]@ && views[2] == labels@[2]@);
    }
    if labels@.len() == 4 {
        assert(views[3] == labels@[3]@);
    }
}

/// What `zero_error_samples` gives: one declaration for each alias and
/// candidate, in order.
pub proof fn error_series_are_declared_for_everyone(
    map: &ModelMap,
    r: Vec<Sample>,
    i: int,
)
    requires
        call_ensures(zero_error_samples, (map,), r),
    ensures
        r@.len() == model_map::alias_pairs(map@).len(),
        0 <= i < r@.len() ==> {
            let (alias, c) = model_map::alias_pairs(map@)[i];
            &&& r@[i].metric == Metric::ErrorsTotal && r@[i].update == Update::Declare
            &&& r@[i].labels@.len() == 3
            &&& r@[i].labels@[0]@ == alias && r@[i].labels@[1]@ == c.provider_name@
                && r@[i].labels@[2]@ == c.model@
        },
{
    if 0 <= i < r@.len() {
        let (alias, c) = model_map::alias_pairs(map@)[i];
        assert(declares(r@[i], model_map::alias_pairs(map@)[i]));
        declared_series_are_those_of_failures(r@[i], alias, c);
    }
}

} // verus!
