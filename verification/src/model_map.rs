//! Aliases resolved to the candidates that can serve them.
use crate::config;
use crate::config::{Config, ModelCandidate, ProviderConfig};
use crate::double::ONE;
use crate::header;
use crate::header::header_value;
use crate::text::same;
use crate::tracker::{LatencyMode, Tracker, COLD};
use vstd::prelude::*;
use vstd::utf8::*;

verus! {

/// How requests to a provider are authorized.
#[derive(Debug, PartialEq)]
pub enum ProviderKind {
    /// Bearer token auth. Also used by Google AI Studio.
    ApiKey,
    /// Access token via GCP Application Default Credentials.
    GcpAdc,
    /// api-key header and deployment URL rewriting.
    AzureOpenAi { api_version: String },
    /// x-api-key header and anthropic-version header.
    Anthropic { version: String },
}

impl Clone for ProviderKind {
    fn clone(&self) -> (r: Self)
        ensures
            r == *self,
    {
        match self {
            ProviderKind::ApiKey => ProviderKind::ApiKey,
            ProviderKind::GcpAdc => ProviderKind::GcpAdc,
            ProviderKind::AzureOpenAi { api_version } => ProviderKind::AzureOpenAi {
                api_version: api_version.clone(),
            },
            ProviderKind::Anthropic { version } => ProviderKind::Anthropic {
                version: version.clone(),
            },
        }
    }
}

/// One way to serve an alias, with everything needed to send a request.
#[derive(Debug)]
pub struct ResolvedCandidate {
    pub provider_name: String,
    pub model: String,
    pub base_url: String,
    pub api_key: Option<String>,
    pub kind: ProviderKind,
    /// Index into the tracker. Candidates with the same (provider, model)
    /// pair share a single stats slot across aliases.
    pub stats_index: usize,
    /// Value of the provider header of a response.
    pub provider_header: Vec<u8>,
    /// Value of the session-affinity header of a response.
    pub affinity_header: Vec<u8>,
    /// Labels to merge into the outbound body as Vertex `labels`.
    /// `None` unless this provider opted in.
    pub attribution_labels: Option<Vec<(String, String)>>,
}

/// Why an alias cannot be resolved.
#[derive(Debug)]
pub enum ModelMapError {
    UndefinedProvider { alias: String, provider: String },
    NoBaseUrl { provider: String },
    InvalidProviderName { provider: String },
    InvalidModelName { model: String, provider: String },
}

/// The content of a `ModelMapError`.
pub enum Unresolved {
    UndefinedProvider { alias: Seq<char>, provider: Seq<char> },
    NoBaseUrl { provider: Seq<char> },
    InvalidProviderName { provider: Seq<char> },
    InvalidModelName { model: Seq<char>, provider: Seq<char> },
}

impl View for ModelMapError {
    type V = Unresolved;

    open spec fn view(&self) -> Unresolved {
        match *self {
            ModelMapError::UndefinedProvider { alias, provider } => Unresolved::UndefinedProvider {
                alias: alias@,
                provider: provider@,
            },
            ModelMapError::NoBaseUrl { provider } => Unresolved::NoBaseUrl { provider: provider@ },
            ModelMapError::InvalidProviderName { provider } => Unresolved::InvalidProviderName {
                provider: provider@,
            },
            ModelMapError::InvalidModelName { model, provider } => Unresolved::InvalidModelName {
                model: model@,
                provider: provider@,
            },
        }
    }
}

impl Unresolved {
    /// What the operator is told.
    pub open spec fn text(self) -> Seq<char> {
        match self {
            Unresolved::UndefinedProvider { alias, provider } => "alias '"@ + alias
                + "' references undefined provider '"@ + provider + "'"@,
            Unresolved::NoBaseUrl { provider } => "provider '"@ + provider
                + "' has no base_url configured"@,
            Unresolved::InvalidProviderName { provider } => "invalid provider name '"@ + provider
                + "'"@,
            Unresolved::InvalidModelName { model, provider } => "invalid model name '"@ + model
                + "' for provider '"@ + provider + "'"@,
        }
    }
}

impl ModelMapError {
    /// What the operator is told.
    pub fn message(&self) -> (r: String)
        ensures
            r@ == self@.text(),
    {
        match self {
            ModelMapError::UndefinedProvider { alias, provider } => "alias '"
                .to_owned()
                .concat(alias.as_str())
                .concat("' references undefined provider '")
                .concat(provider.as_str())
                .concat("'"),
            ModelMapError::NoBaseUrl { provider } => "provider '"
                .to_owned()
                .concat(provider.as_str())
                .concat("' has no base_url configured"),
            ModelMapError::InvalidProviderName { provider } => "invalid provider name '"
                .to_owned()
                .concat(provider.as_str())
                .concat("'"),
            ModelMapError::InvalidModelName { model, provider } => "invalid model name '"
                .to_owned()
                .concat(model.as_str())
                .concat("' for provider '")
                .concat(provider.as_str())
                .concat("'"),
        }
    }
}

/// What a session pins to: the provider, a slash and the model.
pub open spec fn affinity_text(provider: Seq<char>, model: Seq<char>) -> Seq<char> {
    provider + "/"@ + model
}

/// The configuration of a candidate's provider.
pub open spec fn provider_of(config: &Config, c: ModelCandidate) -> ProviderConfig {
    config.provider@[config::provider_position(config.provider@, c.provider@)].1
}

/// Why a candidate cannot be resolved, if it cannot: its provider must be
/// configured and have a base URL, and its names must fit in a header.
pub open spec fn candidate_problem(
    config: &Config,
    alias: Seq<char>,
    c: ModelCandidate,
) -> Option<Unresolved> {
    if !config::has_provider(config.provider@, c.provider@) {
        Some(Unresolved::UndefinedProvider { alias, provider: c.provider@ })
    } else if provider_of(config, c).url() is None {
        Some(Unresolved::NoBaseUrl { provider: c.provider@ })
    } else if !header::sendable(c.provider@) {
        Some(Unresolved::InvalidProviderName { provider: c.provider@ })
    } else if !header::sendable(affinity_text(c.provider@, c.model@)) {
        Some(Unresolved::InvalidModelName { model: c.model@, provider: c.provider@ })
    } else {
        None
    }
}

/// Why the first unresolvable candidate of an alias is so.
pub open spec fn alias_problem(
    config: &Config,
    alias: Seq<char>,
    cs: Seq<ModelCandidate>,
) -> Option<Unresolved>
    decreases cs.len(),
{
    if cs.len() == 0 {
        None
    } else {
        match candidate_problem(config, alias, cs[0]) {
            Some(p) => Some(p),
            None => alias_problem(config, alias, cs.skip(1)),
        }
    }
}

/// Why the first unresolvable candidate of all is so.
pub open spec fn map_problem(
    config: &Config,
    ms: Seq<(String, Vec<ModelCandidate>)>,
) -> Option<Unresolved>
    decreases ms.len(),
{
    if ms.len() == 0 {
        None
    } else {
        match alias_problem(config, ms[0].0@, ms[0].1@) {
            Some(p) => Some(p),
            None => map_problem(config, ms.skip(1)),
        }
    }
}

/// The names and values of some labels.
pub open spec fn label_texts(ls: Seq<(String, String)>) -> Seq<(Seq<char>, Seq<char>)> {
    ls.map_values(|l: (String, String)| (l.0@, l.1@))
}

/// Whether `rc` is the candidate `c`, resolved by the configuration of its
/// provider: labels are carried exactly where the provider opted in.
pub open spec fn resolves(config: &Config, c: ModelCandidate, rc: ResolvedCandidate) -> bool {
    let p = provider_of(config, c);
    &&& rc.provider_name@ == c.provider@
    &&& rc.model@ == c.model@
    &&& p.url() == Some(rc.base_url@)
    &&& rc.api_key == p.api_key
    &&& rc.kind == p.kind()
    &&& rc.provider_header@ == encode_utf8(c.provider@)
    &&& rc.affinity_header@ == encode_utf8(affinity_text(c.provider@, c.model@))
    &&& match rc.attribution_labels {
        Some(ls) => p.opted_in() && label_texts(ls@) == label_texts(config.attribution@),
        None => !p.opted_in(),
    }
}

/// The provider and model of a candidate.
pub open spec fn pair_of(rc: ResolvedCandidate) -> (Seq<char>, Seq<char>) {
    (rc.provider_name@, rc.model@)
}

/// The candidates of all aliases, in order.
pub open spec fn all_candidates(m: Seq<(Seq<char>, Seq<ResolvedCandidate>)>) -> Seq<
    ResolvedCandidate,
>
    decreases m.len(),
{
    if m.len() == 0 {
        seq![]
    } else {
        all_candidates(m.drop_last()) + m.last().1
    }
}

/// Whether every candidate has a slot among the first `slots`.
pub open spec fn map_registered(
    m: Seq<(Seq<char>, Seq<ResolvedCandidate>)>,
    slots: nat,
) -> bool {
    forall|a: int, j: int|
        0 <= a < m.len() && 0 <= j < m[a].1.len() ==> (#[trigger] m[a].1[j]).stats_index < slots
}

proof fn lemma_all_candidates_contains(
    m: Seq<(Seq<char>, Seq<ResolvedCandidate>)>,
    a: int,
    j: int,
)
    requires
        0 <= a < m.len(),
        0 <= j < m[a].1.len(),
    ensures
        exists|x: int| 0 <= x < all_candidates(m).len() && #[trigger] all_candidates(m)[x]
            == m[a].1[j],
    decreases m.len(),
{
    let init = m.drop_last();
    if a < init.len() {
        lemma_all_candidates_contains(init, a, j);
        let x = choose|x: int|
            0 <= x < all_candidates(init).len() && #[trigger] all_candidates(init)[x]
                == init[a].1[j];
        assert(all_candidates(m)[x] == m[a].1[j]);
    } else {
        let x = all_candidates(init).len() + j;
        assert(all_candidates(m)[x] == m[a].1[j]);
    }
}

/// Whether the slots `lo..hi` of the tracker are dealt out so that two
/// candidates share one exactly when they are the same provider and model,
/// and none is left over.
pub open spec fn slots_shared(rcs: Seq<ResolvedCandidate>, lo: int, hi: int) -> bool {
    &&& forall|x: int| 0 <= x < rcs.len() ==> lo <= (#[trigger] rcs[x]).stats_index < hi
    &&& forall|x: int, y: int|
        0 <= x < rcs.len() && 0 <= y < rcs.len() ==> ((#[trigger] rcs[x]).stats_index == (
        #[trigger] rcs[y]).stats_index <==> pair_of(rcs[x]) == pair_of(rcs[y]))
    &&& forall|k: int| lo <= k < hi ==> #[trigger] occupied(rcs, k)
}

/// Whether some candidate has that slot.
pub open spec fn occupied(rcs: Seq<ResolvedCandidate>, k: int) -> bool {
    exists|x: int| 0 <= x < rcs.len() && (#[trigger] rcs[x]).stats_index == k
}

/// Whether a tracker has grown by fresh slots only.
pub open spec fn grown(before: &Tracker, after: &Tracker) -> bool {
    &&& before@.len() <= after@.len()
    &&& after@.take(before@.len() as int) == before@
    &&& forall|k: int|
        before@.len() <= k < after@.len() ==> {
            &&& (#[trigger] after@[k]).rate().bits == ONE
            &&& forall|mode: LatencyMode| after@[k].average(mode) == COLD
        }
    &&& after.alpha() == before.alpha()
    &&& after.threshold() == before.threshold()
}

/// The aliases clients use, each with the candidates that can serve it.
#[derive(Debug)]
pub struct ModelMap {
    aliases: Vec<(String, Vec<ResolvedCandidate>)>,
}

impl View for ModelMap {
    type V = Seq<(Seq<char>, Seq<ResolvedCandidate>)>;

    closed spec fn view(&self) -> Seq<(Seq<char>, Seq<ResolvedCandidate>)> {
        self.aliases@.map_values(|a: (String, Vec<ResolvedCandidate>)| (a.0@, a.1@))
    }
}

fn copy_labels(ls: &Vec<(String, String)>) -> (r: Vec<(String, String)>)
    ensures
        label_texts(r@) == label_texts(ls@),
{
    let mut r: Vec<(String, String)> = Vec::new();
    let mut i: usize = 0;
    while i < ls.len()
        invariant
            i <= ls@.len(),
            label_texts(r@) == label_texts(ls@.take(i as int)),
        decreases ls@.len() - i,
    {
        let ghost before = r@;
        r.push((ls[i].0.clone(), ls[i].1.clone()));
        proof {
            assert(label_texts(r@) =~= label_texts(before).push((ls@[i as int].0@, ls@[i as int].1@)));
            assert(label_texts(ls@.take(i + 1)) =~= label_texts(ls@.take(i as int)).push(
                (ls@[i as int].0@, ls@[i as int].1@),
            ));
        }
        i += 1;
    }
    assert(ls@.take(i as int) =~= ls@);
    r
}

/// The pairs that already have a slot, the first at `base`.
spec fn indexed(
    rcs: Seq<ResolvedCandidate>,
    pairs: Seq<(String, String)>,
    base: int,
) -> bool {
    &&& forall|x: int|
        0 <= x < rcs.len() ==> {
            &&& base <= (#[trigger] rcs[x]).stats_index < base + pairs.len()
            &&& pairs[rcs[x].stats_index - base].0@ == rcs[x].provider_name@
            &&& pairs[rcs[x].stats_index - base].1@ == rcs[x].model@
        }
    &&& forall|k: int, l: int|
        0 <= k < l < pairs.len() ==> (#[trigger] pairs[k]).0@ != (#[trigger] pairs[l]).0@
            || pairs[k].1@ != pairs[l].1@
    &&& forall|k: int| base <= k < base + pairs.len() ==> #[trigger] occupied(rcs, k)
}

proof fn lemma_indexed_shares(
    rcs: Seq<ResolvedCandidate>,
    pairs: Seq<(String, String)>,
    base: int,
)
    requires
        indexed(rcs, pairs, base),
    ensures
        slots_shared(rcs, base, base + pairs.len()),
{
    assert forall|x: int, y: int| 0 <= x < rcs.len() && 0 <= y < rcs.len() implies ((
    #[trigger] rcs[x]).stats_index == (#[trigger] rcs[y]).stats_index <==> pair_of(rcs[x])
        == pair_of(rcs[y])) by {
        let k = rcs[x].stats_index - base;
        let l = rcs[y].stats_index - base;
        if k != l && pair_of(rcs[x]) == pair_of(rcs[y]) {
            if k < l {
                assert(pairs[k].0@ != pairs[l].0@ || pairs[k].1@ != pairs[l].1@);
            } else {
                assert(pairs[l].0@ != pairs[k].0@ || pairs[l].1@ != pairs[k].1@);
            }
        }
    }
}

/// Adding a candidate on a pair that has a slot, or on one that just got the
/// next.
proof fn lemma_indexed_push(
    rcs: Seq<ResolvedCandidate>,
    pairs: Seq<(String, String)>,
    base: int,
    rc: ResolvedCandidate,
    grown_pairs: Seq<(String, String)>,
)
    requires
        indexed(rcs, pairs, base),
        base <= rc.stats_index < base + grown_pairs.len(),
        grown_pairs[rc.stats_index - base].0@ == rc.provider_name@,
        grown_pairs[rc.stats_index - base].1@ == rc.model@,
        grown_pairs == pairs || ({
            &&& grown_pairs.len() == pairs.len() + 1
            &&& grown_pairs.drop_last() == pairs
            &&& rc.stats_index == base + pairs.len()
            &&& forall|k: int|
                0 <= k < pairs.len() ==> (#[trigger] pairs[k]).0@ != rc.provider_name@
                    || pairs[k].1@ != rc.model@
        }),
    ensures
        indexed(rcs.push(rc), grown_pairs, base),
{
    let out = rcs.push(rc);
    assert forall|k: int| 0 <= k < pairs.len() implies #[trigger] grown_pairs[k] == pairs[k] by {
        if grown_pairs != pairs {
            assert(grown_pairs.drop_last()[k] == grown_pairs[k]);
        }
    }
    assert forall|x: int| 0 <= x < out.len() implies {
        &&& base <= (#[trigger] out[x]).stats_index < base + grown_pairs.len()
        &&& grown_pairs[out[x].stats_index - base].0@ == out[x].provider_name@
        &&& grown_pairs[out[x].stats_index - base].1@ == out[x].model@
    } by {
        if x < rcs.len() {
            assert(out[x] == rcs[x]);
            assert(grown_pairs[rcs[x].stats_index - base] == pairs[rcs[x].stats_index - base]);
        }
    }
    assert forall|k: int, l: int| 0 <= k < l < grown_pairs.len() implies (
    #[trigger] grown_pairs[k]).0@ != (#[trigger] grown_pairs[l]).0@ || grown_pairs[k].1@
        != grown_pairs[l].1@ by {
        assert(grown_pairs[k] == pairs[k]);
        if l < pairs.len() {
            assert(grown_pairs[l] == pairs[l]);
        }
    }
    assert forall|k: int| base <= k < base + grown_pairs.len() implies #[trigger] occupied(
        out,
        k,
    ) by {
        if k < base + pairs.len() {
            assert(occupied(rcs, k));
            let x = choose|x: int| 0 <= x < rcs.len() && (#[trigger] rcs[x]).stats_index == k;
            assert(out[x].stats_index == k);
        } else {
            assert(out[rcs.len() as int].stats_index == k);
        }
    }
}

proof fn lemma_grown_more(a: &Tracker, b: &Tracker, c: &Tracker)
    requires
        grown(a, b),
        grown(b, c),
    ensures
        grown(a, c),
{
    assert(c@.take(a@.len() as int) =~= c@.take(b@.len() as int).take(a@.len() as int));
    assert forall|k: int| a@.len() <= k < c@.len() implies {
        &&& (#[trigger] c@[k]).rate().bits == ONE
        &&& forall|mode: LatencyMode| c@[k].average(mode) == COLD
    } by {
        if k < b@.len() {
            assert(c@.take(b@.len() as int)[k] == b@[k]);
        }
    }
}

/// The slot of a pair, registering it with the tracker if it is new.
fn slot_of(
    pairs: &mut Vec<(String, String)>,
    tracker: &mut Tracker,
    provider: &String,
    model: &String,
    base: usize,
) -> (r: usize)
    requires
        old(tracker)@.len() == base + old(pairs)@.len(),
    ensures
        grown(old(tracker), final(tracker)),
        final(tracker)@.len() == base + final(pairs)@.len(),
        base <= r < base + final(pairs)@.len(),
        final(pairs)@[r - base].0@ == provider@,
        final(pairs)@[r - base].1@ == model@,
        final(pairs)@ == old(pairs)@ || ({
            &&& final(pairs)@.len() == old(pairs)@.len() + 1
            &&& final(pairs)@.drop_last() == old(pairs)@
            &&& r == base + old(pairs)@.len()
            &&& forall|k: int|
                0 <= k < old(pairs)@.len() ==> (#[trigger] old(pairs)@[k]).0@ != provider@
                    || old(pairs)@[k].1@ != model@
        }),
{
    let mut i: usize = 0;
    while i < pairs.len()
        invariant
            i <= pairs@.len(),
            pairs@ == old(pairs)@,
            *tracker == *old(tracker),
            tracker@.len() == base + pairs@.len(),
            forall|k: int|
                0 <= k < i ==> (#[trigger] pairs@[k]).0@ != provider@ || pairs@[k].1@ != model@,
        decreases pairs@.len() - i,
    {
        if same(pairs[i].0.as_str(), provider.as_str()) && same(
            pairs[i].1.as_str(),
            model.as_str(),
        ) {
            assert(tracker@.take(tracker@.len() as int) =~= tracker@);
            return tracker.len() - pairs.len() + i;
        }
        i += 1;
    }
    let index: usize = tracker.register();
    pairs.push((provider.clone(), model.clone()));
    assert(pairs@.drop_last() =~= old(pairs)@);
    index
}

/// Resolves one candidate.
fn resolve(
    config: &Config,
    alias: &String,
    c: &ModelCandidate,
    pairs: &mut Vec<(String, String)>,
    tracker: &mut Tracker,
    base: usize,
) -> (r: Result<ResolvedCandidate, ModelMapError>)
    requires
        old(tracker)@.len() == base + old(pairs)@.len(),
    ensures
        grown(old(tracker), final(tracker)),
        final(tracker)@.len() == base + final(pairs)@.len(),
        match r {
            Ok(rc) => {
                &&& candidate_problem(config, alias@, *c) is None
                &&& resolves(config, *c, rc)
                &&& base <= rc.stats_index < base + final(pairs)@.len()
                &&& final(pairs)@[rc.stats_index - base].0@ == c.provider@
                &&& final(pairs)@[rc.stats_index - base].1@ == c.model@
                &&& final(pairs)@ == old(pairs)@ || ({
                    &&& final(pairs)@.len() == old(pairs)@.len() + 1
                    &&& final(pairs)@.drop_last() == old(pairs)@
                    &&& rc.stats_index == base + old(pairs)@.len()
                    &&& forall|k: int|
                        0 <= k < old(pairs)@.len() ==> (#[trigger] old(pairs)@[k]).0@ != c.provider@
                            || old(pairs)@[k].1@ != c.model@
                })
            },
            Err(e) => candidate_problem(config, alias@, *c) == Some(e@),
        },
{
    assert(tracker@.take(tracker@.len() as int) =~= tracker@);
    let p = match config.provider_index(c.provider.as_str()) {
        Some(i) => &config.provider[i].1,
        None => {
            return Err(
                ModelMapError::UndefinedProvider {
                    alias: alias.clone(),
                    provider: c.provider.clone(),
                },
            );
        },
    };
    assert(*p == provider_of(config, *c));
    let base_url = match p.resolved_base_url() {
        Some(u) => u,
        None => {
            return Err(ModelMapError::NoBaseUrl { provider: c.provider.clone() });
        },
    };
    let provider_header = match header_value(c.provider.as_str()) {
        Some(v) => v,
        None => {
            return Err(ModelMapError::InvalidProviderName { provider: c.provider.clone() });
        },
    };
    let affinity = c.provider.clone().concat("/").concat(c.model.as_str());
    let affinity_header = match header_value(affinity.as_str()) {
        Some(v) => v,
        None => {
            return Err(
                ModelMapError::InvalidModelName {
                    model: c.model.clone(),
                    provider: c.provider.clone(),
                },
            );
        },
    };
    let stats_index: usize = slot_of(pairs, tracker, &c.provider, &c.model, base);
    let attribution_labels = if p.attributes() {
        Some(copy_labels(&config.attribution))
    } else {
        None
    };
    let api_key = match &p.api_key {
        Some(k) => Some(k.clone()),
        None => None,
    };
    Ok(
        ResolvedCandidate {
            provider_name: c.provider.clone(),
            model: c.model.clone(),
            base_url,
            api_key,
            kind: p.resolved_kind(),
            stats_index,
            provider_header,
            affinity_header,
            attribution_labels,
        },
    )
}

impl ModelMap {
    /// Build the alias to candidates map and register each unique
    /// (provider, model) pair with the tracker. The returned candidates each
    /// carry a `stats_index` that points into the tracker.
    pub fn from_config(config: &Config, tracker: &mut Tracker) -> (r: Result<Self, ModelMapError>)
        ensures
            grown(old(tracker), final(tracker)),
            match r {
                Ok(map) => {
                    &&& map_problem(config, config.model@) is None
                    &&& map@.len() == config.model@.len()
                    &&& forall|a: int|
                        0 <= a < map@.len() ==> {
                            &&& (#[trigger] map@[a]).0 == config.model@[a].0@
                            &&& map@[a].1.len() == config.model@[a].1@.len()
                        }
                    &&& forall|a: int, j: int|
                        0 <= a < map@.len() && 0 <= j < map@[a].1.len() ==> resolves(
                            config,
                            config.model@[a].1@[j],
                            #[trigger] map@[a].1[j],
                        )
                    &&& slots_shared(
                        all_candidates(map@),
                        old(tracker)@.len() as int,
                        final(tracker)@.len() as int,
                    )
                    &&& map_registered(map@, final(tracker)@.len())
                },
                Err(e) => map_problem(config, config.model@) == Some(e@),
            },
    {
        let base: usize = tracker.len();
        let mut pairs: Vec<(String, String)> = Vec::new();
        let mut map = ModelMap { aliases: Vec::new() };
        let ghost ms = config.model@;
        let mut a: usize = 0;
        proof {
            assert(ms.skip(0) =~= ms);
            assert(tracker@.take(tracker@.len() as int) =~= tracker@);
            assert(map@ =~= Seq::empty());
            assert(indexed(all_candidates(map@), pairs@, base as int));
        }
        while a < config.model.len()
            invariant
                base == old(tracker)@.len(),
                ms == config.model@,
                a <= ms.len(),
                grown(old(tracker), tracker),
                tracker@.len() == base + pairs@.len(),
                map_problem(config, ms) == map_problem(config, ms.skip(a as int)),
                map@.len() == a,
                map.aliases@.len() == a,
                forall|b: int|
                    0 <= b < a ==> {
                        &&& (#[trigger] map@[b]).0 == ms[b].0@
                        &&& map@[b].1.len() == ms[b].1@.len()
                    },
                forall|b: int, j: int|
                    0 <= b < a && 0 <= j < map@[b].1.len() ==> resolves(
                        config,
                        ms[b].1@[j],
                        #[trigger] map@[b].1[j],
                    ),
                indexed(all_candidates(map@), pairs@, base as int),
            decreases ms.len() - a,
        {
            let alias = &config.model[a].0;
            let candidates = &config.model[a].1;
            let ghost cs = candidates@;
            let ghost done = all_candidates(map@);
            let mut resolved: Vec<ResolvedCandidate> = Vec::new();
            let mut j: usize = 0;
            proof {
                assert(ms.skip(a as int)[0] == ms[a as int]);
                assert(ms.skip(a as int).skip(1) =~= ms.skip(a + 1));
                assert(cs.skip(0) =~= cs);
                assert(done + resolved@ =~= done);
            }
            while j < candidates.len()
                invariant
                    base == old(tracker)@.len(),
                    ms == config.model@,
                    a < ms.len(),
                    cs == candidates@,
                    cs == ms[a as int].1@,
                    alias@ == ms[a as int].0@,
                    ms.skip(a as int)[0] == ms[a as int],
                    j <= cs.len(),
                    grown(old(tracker), tracker),
                    tracker@.len() == base + pairs@.len(),
                    map_problem(config, ms) == map_problem(config, ms.skip(a as int)),
                    alias_problem(config, alias@, cs) == alias_problem(
                        config,
                        alias@,
                        cs.skip(j as int),
                    ),
                    resolved@.len() == j,
                    forall|k: int| 0 <= k < j ==> resolves(config, cs[k], #[trigger] resolved@[k]),
                    indexed(done + resolved@, pairs@, base as int),
                decreases cs.len() - j,
            {
                proof {
                    assert(cs.skip(j as int)[0] == cs[j as int]);
                    assert(cs.skip(j as int).skip(1) =~= cs.skip(j + 1));
                }
                let ghost tracker_before = *tracker;
                let ghost pairs_before = pairs@;
                match resolve(config, alias, &candidates[j], &mut pairs, tracker, base) {
                    Ok(rc) => {
                        proof {
                            lemma_grown_more(old(tracker), &tracker_before, tracker);
                            lemma_indexed_push(
                                done + resolved@,
                                pairs_before,
                                base as int,
                                rc,
                                pairs@,
                            );
                            assert((done + resolved@).push(rc) =~= done + resolved@.push(rc));
                        }
                        resolved.push(rc);
                    },
                    Err(e) => {
                        proof {
                            lemma_grown_more(old(tracker), &tracker_before, tracker);
                        }
                        return Err(e);
                    },
                }
                j += 1;
            }
            assert(alias_problem(config, alias@, cs.skip(j as int)) is None);
            let ghost map_before = map@;
            let ghost entry = (alias@, resolved@);
            map.aliases.push((alias.clone(), resolved));
            proof {
                assert(map@ =~= map_before.push(entry));
                assert(map@.drop_last() =~= map_before);
                assert(all_candidates(map@) == done + entry.1);
            }
            a += 1;
        }
        assert(map_problem(config, ms.skip(a as int)) is None);
        proof {
            lemma_indexed_shares(all_candidates(map@), pairs@, base as int);
            assert forall|b: int, j: int|
                0 <= b < map@.len() && 0 <= j < map@[b].1.len() implies (
            #[trigger] map@[b].1[j]).stats_index < tracker@.len() by {
                lemma_all_candidates_contains(map@, b, j);
                let x = choose|x: int|
                    0 <= x < all_candidates(map@).len() && #[trigger] all_candidates(map@)[x]
                        == map@[b].1[j];
                assert(all_candidates(map@)[x].stats_index < tracker@.len());
            }
        }
        Ok(map)
    }

    /// The place of an alias, or the number of aliases.
    fn find(&self, alias: &str) -> (i: usize)
        ensures
            i == alias_position(self@, alias@),
            i <= self.aliases@.len(),
    {
        let mut i: usize = 0;
        while i < self.aliases.len()
            invariant
                i <= self.aliases@.len(),
                forall|j: int| 0 <= j < i ==> (#[trigger] self@[j]).0 != alias@,
            decreases self.aliases@.len() - i,
        {
            assert(self@[i as int].0 == self.aliases@[i as int].0@);
            if same(self.aliases[i].0.as_str(), alias) {
                proof {
                    lemma_alias_position(self@, alias@, i as int);
                }
                return i;
            }
            i += 1;
        }
        proof {
            lemma_alias_position(self@, alias@, i as int);
        }
        i
    }

    /// The candidates of an alias.
    pub fn get(&self, alias: &str) -> (r: Option<&[ResolvedCandidate]>)
        ensures
            match r {
                Some(cs) => candidates_of(self@, alias@) == Some(cs@),
                None => candidates_of(self@, alias@) is None,
            },
    {
        let i: usize = self.find(alias);
        if i < self.aliases.len() {
            Some(self.aliases[i].1.as_slice())
        } else {
            None
        }
    }

    /// Every alias, in order.
    pub fn alias_names(&self) -> (r: Vec<&str>)
        ensures
            r@.map_values(|s: &str| s@) == self@.map_values(
                |a: (Seq<char>, Seq<ResolvedCandidate>)| a.0,
            ),
    {
        let mut names: Vec<&str> = Vec::new();
        let mut i: usize = 0;
        while i < self.aliases.len()
            invariant
                i <= self.aliases@.len(),
                names@.len() == i,
                forall|j: int| 0 <= j < i ==> (#[trigger] names@[j])@ == self@[j].0,
            decreases self.aliases@.len() - i,
        {
            assert(self@[i as int].0 == self.aliases@[i as int].0@);
            names.push(self.aliases[i].0.as_str());
            i += 1;
        }
        names
    }

    /// Every (alias, candidate) pair, for status reporting and metric
    /// initialisation.
    pub fn iter(&self) -> (r: Vec<(&str, &ResolvedCandidate)>)
        ensures
            r@.map_values(|p: (&str, &ResolvedCandidate)| (p.0@, *p.1)) == alias_pairs(self@),
    {
        let mut out: Vec<(&str, &ResolvedCandidate)> = Vec::new();
        let ghost view = |p: (&str, &ResolvedCandidate)| (p.0@, *p.1);
        let mut i: usize = 0;
        assert(out@.map_values(view) =~= alias_pairs(self@.take(0)));
        while i < self.aliases.len()
            invariant
                i <= self.aliases@.len(),
                view == (|p: (&str, &ResolvedCandidate)| (p.0@, *p.1)),
                out@.map_values(view) == alias_pairs(self@.take(i as int)),
            decreases self.aliases@.len() - i,
        {
            let ghost before = alias_pairs(self@.take(i as int));
            let ghost entry = self@[i as int];
            let alias = self.aliases[i].0.as_str();
            let cs = &self.aliases[i].1;
            let mut j: usize = 0;
            assert(out@.map_values(view) =~= before + with_alias(entry.0, entry.1.take(0)));
            while j < cs.len()
                invariant
                    j <= cs@.len(),
                    view == (|p: (&str, &ResolvedCandidate)| (p.0@, *p.1)),
                    cs@ == entry.1,
                    alias@ == entry.0,
                    out@.map_values(view) == before + with_alias(entry.0, entry.1.take(j as int)),
                decreases cs@.len() - j,
            {
                let ghost sofar = out@;
                out.push((alias, &cs[j]));
                proof {
                    assert(out@.map_values(view) =~= sofar.map_values(view).push(
                        (entry.0, entry.1[j as int]),
                    ));
                    assert(with_alias(entry.0, entry.1.take(j + 1)) =~= with_alias(
                        entry.0,
                        entry.1.take(j as int),
                    ).push((entry.0, entry.1[j as int])));
                }
                j += 1;
            }
            proof {
                assert(entry.1.take(j as int) =~= entry.1);
                assert(self@.take(i + 1).drop_last() =~= self@.take(i as int));
                assert(self@.take(i + 1).last() == entry);
            }
            i += 1;
        }
        assert(self@.take(i as int) =~= self@);
        out
    }
}

/// The first alias of that name, or the number of aliases.
pub open spec fn alias_position(
    m: Seq<(Seq<char>, Seq<ResolvedCandidate>)>,
    alias: Seq<char>,
) -> int
    decreases m.len(),
{
    if m.len() == 0 || m[0].0 == alias {
        0
    } else {
        1 + alias_position(m.skip(1), alias)
    }
}

/// The candidates of an alias, if there is one of that name.
pub open spec fn candidates_of(
    m: Seq<(Seq<char>, Seq<ResolvedCandidate>)>,
    alias: Seq<char>,
) -> Option<Seq<ResolvedCandidate>> {
    let i = alias_position(m, alias);
    if i < m.len() {
        Some(m[i].1)
    } else {
        None
    }
}

/// Some candidates, each with the alias.
pub open spec fn with_alias(alias: Seq<char>, rcs: Seq<ResolvedCandidate>) -> Seq<
    (Seq<char>, ResolvedCandidate),
> {
    rcs.map_values(|rc: ResolvedCandidate| (alias, rc))
}

/// Every alias with each of its candidates, in order.
pub open spec fn alias_pairs(m: Seq<(Seq<char>, Seq<ResolvedCandidate>)>) -> Seq<
    (Seq<char>, ResolvedCandidate),
>
    decreases m.len(),
{
    if m.len() == 0 {
        seq![]
    } else {
        alias_pairs(m.drop_last()) + with_alias(m.last().0, m.last().1)
    }
}

proof fn lemma_alias_position(
    m: Seq<(Seq<char>, Seq<ResolvedCandidate>)>,
    alias: Seq<char>,
    i: int,
)
    requires
        0 <= i <= m.len(),
        forall|j: int| 0 <= j < i ==> (#[trigger] m[j]).0 != alias,
        i < m.len() ==> m[i].0 == alias,
    ensures
        alias_position(m, alias) == i,
    decreases m.len(),
{
    if i > 0 {
        let rest = m.skip(1);
        assert forall|j: int| 0 <= j < i - 1 implies (#[trigger] rest[j]).0 != alias by {
            assert(rest[j] == m[j + 1]);
        }
        if i < m.len() {
            assert(rest[i - 1] == m[i]);
        }
        assert(m[0].0 != alias);
        lemma_alias_position(rest, alias, i - 1);
    }
}

/// Every alias of a configuration that names none twice is served by the
/// candidates listed under it.
pub proof fn aliases_are_served_by_their_own_candidates(
    config: &Config,
    m: Seq<(Seq<char>, Seq<ResolvedCandidate>)>,
    a: int,
)
    requires
        config.distinct_names(),
        m.len() == config.model@.len(),
        forall|i: int| 0 <= i < m.len() ==> (#[trigger] m[i]).0 == config.model@[i].0@,
        0 <= a < m.len(),
    ensures
        candidates_of(m, config.model@[a].0@) == Some(m[a].1),
{
    let alias = config.model@[a].0@;
    assert(m[a].0 == alias);
    assert forall|j: int| 0 <= j < a implies (#[trigger] m[j]).0 != alias by {
        assert(config.model@[j].0@ != config.model@[a].0@);
    }
    lemma_alias_position(m, alias, a);
}

/// Whether the names of a candidate fit in response headers.
pub open spec fn names_sendable(c: ModelCandidate) -> bool {
    header::sendable(c.provider@) && header::sendable(affinity_text(c.provider@, c.model@))
}

/// A provider that is configured is found where it is.
pub proof fn lemma_position_of_known(ps: Seq<(String, ProviderConfig)>, name: Seq<char>)
    requires
        config::has_provider(ps, name),
    ensures
        0 <= config::provider_position(ps, name) < ps.len(),
    decreases ps.len(),
{
    let i = choose|i: int| 0 <= i < ps.len() && (#[trigger] ps[i]).0@ == name;
    if ps[0].0@ != name {
        assert(ps.skip(1)[i - 1] == ps[i]);
        lemma_position_of_known(ps.skip(1), name);
    }
}

/// A configuration that was accepted always resolves, as long as provider
/// and model names fit in headers.
pub proof fn accepted_configurations_resolve(config: &Config)
    requires
        config.problem() is None,
        forall|a: int, j: int|
            0 <= a < config.model@.len() && 0 <= j < config.model@[a].1@.len() ==> names_sendable(
                #[trigger] config.model@[a].1@[j],
            ),
    ensures
        map_problem(config, config.model@) is None,
{
    config::accepted_configurations(*config);
    lemma_all_resolve(config, config.model@);
}

proof fn lemma_all_resolve(config: &Config, ms: Seq<(String, Vec<ModelCandidate>)>)
    requires
        forall|i: int|
            0 <= i < config.provider@.len() ==> (#[trigger] config.provider@[i]).1.url() is Some,
        forall|a: int|
            0 <= a < ms.len() ==> config::candidates_known(
                (#[trigger] ms[a]).1@,
                config.provider@,
            ),
        forall|a: int, j: int|
            0 <= a < ms.len() && 0 <= j < ms[a].1@.len() ==> names_sendable(
                #[trigger] ms[a].1@[j],
            ),
    ensures
        map_problem(config, ms) is None,
    decreases ms.len(),
{
    if ms.len() > 0 {
        let rest = ms.skip(1);
        assert forall|a: int| 0 <= a < rest.len() implies config::candidates_known(
            (#[trigger] rest[a]).1@,
            config.provider@,
        ) by {
            assert(rest[a] == ms[a + 1]);
        }
        assert forall|a: int, j: int|
            0 <= a < rest.len() && 0 <= j < rest[a].1@.len() implies names_sendable(
            #[trigger] rest[a].1@[j],
        ) by {
            assert(rest[a].1@[j] == ms[a + 1].1@[j]);
        }
        lemma_all_resolve(config, rest);
        assert(config::candidates_known(ms[0].1@, config.provider@));
        assert forall|j: int| 0 <= j < ms[0].1@.len() implies names_sendable(
            #[trigger] ms[0].1@[j],
        ) by {}
        lemma_alias_resolves(config, ms[0].0@, ms[0].1@);
    }
}

proof fn lemma_alias_resolves(config: &Config, alias: Seq<char>, cs: Seq<ModelCandidate>)
    requires
        forall|i: int|
            0 <= i < config.provider@.len() ==> (#[trigger] config.provider@[i]).1.url() is Some,
        config::candidates_known(cs, config.provider@),
        forall|j: int| 0 <= j < cs.len() ==> names_sendable(#[trigger] cs[j]),
    ensures
        alias_problem(config, alias, cs) is None,
    decreases cs.len(),
{
    if cs.len() > 0 {
        let rest = cs.skip(1);
        assert forall|j: int| 0 <= j < rest.len() implies names_sendable(#[trigger] rest[j])
            && config::has_provider(config.provider@, rest[j].provider@) by {
            assert(rest[j] == cs[j + 1]);
        }
        lemma_alias_resolves(config, alias, rest);
        assert(names_sendable(cs[0]));
        assert(config::has_provider(config.provider@, cs[0].provider@));
        lemma_position_of_known(config.provider@, cs[0].provider@);
    }
}

/// An alias is served by the candidates under the first of its name, and one
/// that is nowhere by nobody.
pub proof fn aliases_are_found_by_name(
    m: Seq<(Seq<char>, Seq<ResolvedCandidate>)>,
    alias: Seq<char>,
    i: int,
)
    requires
        0 <= i <= m.len(),
        forall|j: int| 0 <= j < i ==> (#[trigger] m[j]).0 != alias,
        i < m.len() ==> m[i].0 == alias,
    ensures
        i < m.len() ==> candidates_of(m, alias) == Some(m[i].1),
        i == m.len() ==> candidates_of(m, alias) is None,
{
    lemma_alias_position(m, alias, i);
}

/// A session pins to the provider, a slash and the model.
pub proof fn sessions_pin_to_provider_and_model(provider: Seq<char>, model: Seq<char>)
    ensures
        affinity_text(provider, model) == provider + seq!['/'] + model,
{
    reveal_strlit("/");
    assert("/"@ =~= seq!['/']);
}

/// What the operator is told of a candidate that cannot be resolved.
pub proof fn unresolved_candidates_are_told_to_the_operator(
    alias: Seq<char>,
    provider: Seq<char>,
    model: Seq<char>,
)
    ensures
        (Unresolved::UndefinedProvider { alias, provider }).text() == "alias '"@ + alias
            + "' references undefined provider '"@ + provider + "'"@,
        (Unresolved::NoBaseUrl { provider }).text() == "provider '"@ + provider
            + "' has no base_url configured"@,
        (Unresolved::InvalidProviderName { provider }).text() == "invalid provider name '"@
            + provider + "'"@,
        (Unresolved::InvalidModelName { model, provider }).text() == "invalid model name '"@ + model
            + "' for provider '"@ + provider + "'"@,
{
}

/// The content of an error is what it carries.
pub proof fn errors_carry_what_is_unresolved(e: ModelMapError)
    ensures
        match e {
            ModelMapError::UndefinedProvider { alias, provider } => e@ == (
            Unresolved::UndefinedProvider { alias: alias@, provider: provider@ }),
            ModelMapError::NoBaseUrl { provider } => e@ == (Unresolved::NoBaseUrl {
                provider: provider@,
            }),
            ModelMapError::InvalidProviderName { provider } => e@ == (
            Unresolved::InvalidProviderName { provider: provider@ }),
            ModelMapError::InvalidModelName { model, provider } => e@ == (
            Unresolved::InvalidModelName { model: model@, provider: provider@ }),
        },
{
}

/// A candidate resolves where its provider is configured and has a base URL,
/// and both names fit in a header; what is missing first is named.
pub proof fn candidates_resolve_by_their_provider(
    config: &Config,
    alias: Seq<char>,
    c: ModelCandidate,
)
    ensures
        !config::has_provider(config.provider@, c.provider@) ==> candidate_problem(
            config,
            alias,
            c,
        ) == Some(Unresolved::UndefinedProvider { alias, provider: c.provider@ }),
        config::has_provider(config.provider@, c.provider@) ==> {
            let url = provider_of(config, c).url();
            let named = header::sendable(c.provider@);
            let pinned = header::sendable(c.provider@ + seq!['/'] + c.model@);
            &&& url is None ==> candidate_problem(config, alias, c) == Some(
                Unresolved::NoBaseUrl { provider: c.provider@ },
            )
            &&& url is Some && !named ==> candidate_problem(config, alias, c) == Some(
                Unresolved::InvalidProviderName { provider: c.provider@ },
            )
            &&& url is Some && named && !pinned ==> candidate_problem(config, alias, c) == Some(
                Unresolved::InvalidModelName { model: c.model@, provider: c.provider@ },
            )
            &&& url is Some && named && pinned ==> candidate_problem(config, alias, c) is None
        },
{
    sessions_pin_to_provider_and_model(c.provider@, c.model@);
}

/// The first candidate that cannot be resolved is named, alias by alias.
pub proof fn the_first_unresolved_candidate_is_named(
    config: &Config,
    alias: Seq<char>,
    cs: Seq<ModelCandidate>,
    ms: Seq<(String, Vec<ModelCandidate>)>,
)
    ensures
        cs.len() == 0 ==> alias_problem(config, alias, cs) is None,
        cs.len() > 0 && candidate_problem(config, alias, cs[0]) is Some ==> alias_problem(
            config,
            alias,
            cs,
        ) == candidate_problem(config, alias, cs[0]),
        cs.len() > 0 && candidate_problem(config, alias, cs[0]) is None ==> alias_problem(
            config,
            alias,
            cs,
        ) == alias_problem(config, alias, cs.skip(1)),
        ms.len() == 0 ==> map_problem(config, ms) is None,
        ms.len() > 0 && alias_problem(config, ms[0].0@, ms[0].1@) is Some ==> map_problem(
            config,
            ms,
        ) == alias_problem(config, ms[0].0@, ms[0].1@),
        ms.len() > 0 && alias_problem(config, ms[0].0@, ms[0].1@) is None ==> map_problem(
            config,
            ms,
        ) == map_problem(config, ms.skip(1)),
{
}

/// A resolved candidate has the names it was listed with, and the base URL,
/// key and kind of the provider of that name; it carries the configured labels
/// exactly where that provider is Vertex with attribution switched on, and its
/// headers are its names.
pub proof fn resolved_candidates_are_those_of_their_provider(
    config: &Config,
    c: ModelCandidate,
    rc: ResolvedCandidate,
    i: int,
)
    requires
        resolves(config, c, rc),
        0 <= i < config.provider@.len(),
        config.provider@[i].0@ == c.provider@,
        forall|j: int| 0 <= j < i ==> (#[trigger] config.provider@[j]).0@ != c.provider@,
    ensures
        ({
            let p = config.provider@[i].1;
            let attributed = p.vertex_ai is Some && (p.vertex_ai->0).attribution;
            &&& rc.provider_name@ == c.provider@
            &&& rc.model@ == c.model@
            &&& p.url() == Some(rc.base_url@)
            &&& rc.api_key == p.api_key
            &&& rc.kind == p.kind()
            &&& rc.provider_header@ == encode_utf8(c.provider@)
            &&& rc.affinity_header@ == encode_utf8(c.provider@ + seq!['/'] + c.model@)
            &&& rc.attribution_labels is Some <==> attributed
            &&& rc.attribution_labels matches Some(ls) ==> {
                &&& ls@.len() == config.attribution@.len()
                &&& forall|k: int|
                    0 <= k < ls@.len() ==> (#[trigger] ls@[k]).0@ == config.attribution@[k].0@
                        && ls@[k].1@ == config.attribution@[k].1@
            }
        }),
{
    config::providers_are_found_by_name(config.provider@, c.provider@, i);
    sessions_pin_to_provider_and_model(c.provider@, c.model@);
    if let Some(ls) = rc.attribution_labels {
        let a = label_texts(ls@);
        let b = label_texts(config.attribution@);
        assert(a.len() == ls@.len() && b.len() == config.attribution@.len());
        assert forall|k: int| 0 <= k < ls@.len() implies (#[trigger] ls@[k]).0@
            == config.attribution@[k].0@ && ls@[k].1@ == config.attribution@[k].1@ by {
            assert(a[k] == b[k]);
        }
    }
}

/// Labels are seen one by one, name and value.
pub proof fn labels_are_seen_one_by_one(ls: Seq<(String, String)>, i: int)
    ensures
        label_texts(ls).len() == ls.len(),
        0 <= i < ls.len() ==> label_texts(ls)[i] == (ls[i].0@, ls[i].1@),
{
}

/// Two candidates share a slot exactly when they are the same provider and
/// model, whatever their aliases; all slots are new ones, and none is idle.
pub proof fn slots_are_shared_by_provider_and_model(
    rcs: Seq<ResolvedCandidate>,
    lo: int,
    hi: int,
    x: int,
    y: int,
    k: int,
)
    requires
        slots_shared(rcs, lo, hi),
        0 <= x < rcs.len(),
        0 <= y < rcs.len(),
        lo <= k < hi,
    ensures
        rcs[x].stats_index == rcs[y].stats_index <==> rcs[x].provider_name@
            == rcs[y].provider_name@ && rcs[x].model@ == rcs[y].model@,
        lo <= rcs[x].stats_index < hi,
        exists|z: int| 0 <= z < rcs.len() && (#[trigger] rcs[z]).stats_index == k,
{
    assert(occupied(rcs, k));
    assert(rcs[x].stats_index == rcs[y].stats_index <==> pair_of(rcs[x]) == pair_of(rcs[y]));
}

/// A tracker that has grown holds what it held, under the settings it had, and
/// behind it only candidates of which nothing is known.
pub proof fn trackers_grow_by_unknown_candidates(before: &Tracker, after: &Tracker, k: int)
    requires
        grown(before, after),
        0 <= k < after@.len(),
    ensures
        before@.len() <= after@.len(),
        k < before@.len() ==> after@[k] == before@[k],
        k >= before@.len() ==> after@[k].rate().bits == 0x3FF0_0000_0000_0000 && after@[k].average(
            LatencyMode::Streaming,
        ) == u64::MAX && after@[k].average(LatencyMode::NonStreaming) == u64::MAX,
        after.alpha() == before.alpha(),
        after.threshold() == before.threshold(),
{
    if k < before@.len() {
        assert(after@.take(before@.len() as int)[k] == after@[k]);
    }
}

/// Aliases and their candidates are listed in order, alias by alias and
/// candidate by candidate.
pub proof fn aliases_are_listed_in_order(
    m: Seq<(Seq<char>, Seq<ResolvedCandidate>)>,
    alias: Seq<char>,
    rcs: Seq<ResolvedCandidate>,
    rc: ResolvedCandidate,
)
    ensures
        alias_pairs(Seq::empty()) == Seq::<(Seq<char>, ResolvedCandidate)>::empty(),
        alias_pairs(m.push((alias, Seq::empty()))) == alias_pairs(m),
        alias_pairs(m.push((alias, rcs.push(rc)))) == alias_pairs(m.push((alias, rcs))).push(
            (alias, rc),
        ),
        all_candidates(Seq::empty()) == Seq::<ResolvedCandidate>::empty(),
        all_candidates(m.push((alias, rcs))) == all_candidates(m) + rcs,
{
    let none = m.push((alias, Seq::empty()));
    let some = m.push((alias, rcs));
    let more = m.push((alias, rcs.push(rc)));
    assert(none.drop_last() =~= m);
    assert(some.drop_last() =~= m);
    assert(more.drop_last() =~= m);
    assert(alias_pairs(none) =~= alias_pairs(m));
    assert(with_alias(alias, rcs.push(rc)) =~= with_alias(alias, rcs).push((alias, rc)));
    assert(alias_pairs(more) =~= alias_pairs(some).push((alias, rc)));
}

/// What `from_config` gives: every alias with its candidates, in order and
/// under their own names, two of them on one slot of the tracker exactly where
/// they are the same provider and model.
pub proof fn maps_hold_every_alias_and_candidate(
    config: &Config,
    tracker: &mut Tracker,
    r: Result<ModelMap, ModelMapError>,
    a: int,
    i: int,
    b: int,
    j: int,
)
    requires
        call_ensures(ModelMap::from_config, (config, tracker), r),
    ensures
        r matches Err(e) ==> map_problem(config, config.model@) == Some(e@),
        old(tracker)@.len() <= final(tracker)@.len(),
        r matches Ok(map) ==> {
            &&& map_problem(config, config.model@) is None
            &&& map@.len() == config.model@.len()
            &&& 0 <= a < map@.len() ==> map@[a].0 == config.model@[a].0@ && map@[a].1.len()
                == config.model@[a].1@.len()
            &&& 0 <= a < map@.len() && 0 <= i < map@[a].1.len() ==> {
                let rc = map@[a].1[i];
                let c = config.model@[a].1@[i];
                &&& resolves(config, c, rc)
                &&& rc.provider_name@ == c.provider@ && rc.model@ == c.model@
                &&& old(tracker)@.len() <= rc.stats_index < final(tracker)@.len()
                &&& 0 <= b < map@.len() && 0 <= j < map@[b].1.len() ==> {
                    let other = map@[b].1[j];
                    rc.stats_index == other.stats_index <==> rc.provider_name@
                        == other.provider_name@ && rc.model@ == other.model@
                }
            }
        },
{
    if let Ok(map) = r {
        if 0 <= a < map@.len() && 0 <= i < map@[a].1.len() {
            let all = all_candidates(map@);
            lemma_all_candidates_contains(map@, a, i);
            let x = choose|x: int| 0 <= x < all.len() && #[trigger] all[x] == map@[a].1[i];
            assert(resolves(config, config.model@[a].1@[i], map@[a].1[i]));
            assert(all[x].stats_index >= old(tracker)@.len());
            if 0 <= b < map@.len() && 0 <= j < map@[b].1.len() {
                lemma_all_candidates_contains(map@, b, j);
                let y = choose|y: int| 0 <= y < all.len() && #[trigger] all[y] == map@[b].1[j];
                assert(all[x].stats_index == all[y].stats_index <==> pair_of(all[x]) == pair_of(
                    all[y],
                ));
            }
        }
    }
}

/// What the operator is told is the text of what is unresolved.
pub proof fn errors_tell_what_is_unresolved(e: &ModelMapError, r: String)
    requires
        call_ensures(ModelMapError::message, (e,), r),
    ensures
        r@ == e@.text(),
{
}

/// What a map gives: the candidates of an alias, the names of all, and each
/// pair of an alias and a candidate.
pub proof fn maps_give_what_they_hold(
    map: &ModelMap,
    alias: &str,
    found: Option<&[ResolvedCandidate]>,
    names: Vec<&str>,
    pairs: Vec<(&str, &ResolvedCandidate)>,
    i: int,
)
    requires
        call_ensures(ModelMap::get, (map, alias), found),
        call_ensures(ModelMap::alias_names, (map,), names),
        call_ensures(ModelMap::iter, (map,), pairs),
    ensures
        found is Some <==> candidates_of(map@, alias@) is Some,
        found matches Some(cs) ==> candidates_of(map@, alias@) == Some(cs@),
        names@.len() == map@.len(),
        0 <= i < map@.len() ==> names@[i]@ == map@[i].0,
        pairs@.len() == alias_pairs(map@).len(),
        0 <= i < pairs@.len() ==> alias_pairs(map@)[i] == (pairs@[i].0@, *pairs@[i].1),
{
    let a = names@.map_values(|s: &str| s@);
    let b = map@.map_values(|m: (Seq<char>, Seq<ResolvedCandidate>)| m.0);
    assert(a.len() == names@.len() && b.len() == map@.len());
    if 0 <= i < map@.len() {
        assert(a[i] == names@[i]@ && b[i] == map@[i].0);
    }
    let view = |p: (&str, &ResolvedCandidate)| (p.0@, *p.1);
    assert(pairs@.map_values(view).len() == pairs@.len());
    if 0 <= i < pairs@.len() {
        assert(pairs@.map_values(view)[i] == (pairs@[i].0@, *pairs@[i].1));
    }
}

} // verus!
