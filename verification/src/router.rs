//! Weighted choice among the candidates of an alias.
//!
//! Each candidate gets a weight from its effective latency, and a
//! deterministic low-discrepancy sequence turns the weights into picks. The
//! arithmetic on doubles is handed in by the caller; the rules (who is cold,
//! what the reference is, the floor under every weight, the pick) are here.
use crate::double::Double;
use crate::model_map::ResolvedCandidate;
use crate::tracker::{CandidateStats, LatencyMode, Tracker, COLD};
use vstd::arithmetic::div_mod::*;
use vstd::arithmetic::mul::*;
use vstd::hash_map::StringHashMap;
use vstd::prelude::*;

verus! {

/// The bits of 3.0, the default exploit sharpness: traffic to each candidate
/// is proportional to `(best_effective / its_effective)^k`. The ratio is
/// scale-free, so a candidate twice as slow gets about an eighth of the
/// traffic whatever the absolute latencies.
pub const EXPLOIT_K: u64 = 0x4008_0000_0000_0000;

/// The fastest candidate gets this many weight units; everyone else's weight
/// is scaled relative to it, but never below the floor.
pub const WEIGHT_RESOLUTION: usize = 1000;

/// The least weight of any candidate, one hundredth of the resolution. It
/// bounds both sides of the same trade: at most about this share of an
/// alias's traffic meets a failing candidate, and a recovered one is found
/// again within about a hundred requests.
pub const WEIGHT_FLOOR: usize = 10;

/// The bits of 0.25: cold candidates probe at this fraction of the fastest
/// candidate's rate.
pub const COLD_PROBE_WEIGHT: u64 = 0x3FD0_0000_0000_0000;

/// The bits of 0.001, the floor under a success rate: a fully failing
/// candidate gets a finite (huge) effective latency rather than a division by
/// zero.
pub const MIN_SUCCESS_RATE: u64 = 0x3F50_624D_D2F1_A9FC;

/// `2^64 / phi`, the step of the Weyl sequence. Odd, so that multiplying by
/// it permutes the 64-bit numbers.
pub const WEYL_STEP: u64 = 0x9E37_79B9_7F4A_7C15;

/// `2^64`.
pub open spec fn span() -> int {
    0x1_0000_0000_0000_0000
}

/// One counter per alias, walked over the weighted schedule (no randomness).
pub struct RoundRobinState {
    counters: StringHashMap<usize>,
}

impl View for RoundRobinState {
    type V = Map<Seq<char>, usize>;

    closed spec fn view(&self) -> Map<Seq<char>, usize> {
        self.counters@
    }
}

impl Default for RoundRobinState {
    fn default() -> (r: Self)
        ensures
            r@ == Map::<Seq<char>, usize>::empty(),
    {
        RoundRobinState::new()
    }
}

/// The counters after a tick of `alias`.
pub open spec fn ticked(counters: Map<Seq<char>, usize>, alias: Seq<char>) -> Map<
    Seq<char>,
    usize,
> {
    if counters.contains_key(alias) {
        counters.insert(
            alias,
            if counters[alias] == usize::MAX {
                0
            } else {
                (counters[alias] + 1) as usize
            },
        )
    } else {
        counters
    }
}

/// The tick `alias` is at; an alias that was never registered stays at 0.
pub open spec fn tick_of(counters: Map<Seq<char>, usize>, alias: Seq<char>) -> u64 {
    if counters.contains_key(alias) {
        counters[alias] as u64
    } else {
        0
    }
}

impl RoundRobinState {
    /// No aliases yet.
    pub fn new() -> (r: Self)
        ensures
            r@ == Map::<Seq<char>, usize>::empty(),
    {
        RoundRobinState { counters: StringHashMap::new() }
    }

    /// Starts a counter for an alias, unless it has one.
    pub fn register_alias(&mut self, alias: String)
        ensures
            final(self)@ == if old(self)@.contains_key(alias@) {
                old(self)@
            } else {
                old(self)@.insert(alias@, 0)
            },
    {
        if !self.counters.contains_key(alias.as_str()) {
            self.counters.insert(alias, 0);
        }
    }

    /// The alias's tick; the next call gives the next one.
    pub fn next_tick(&mut self, alias: &str) -> (r: u64)
        ensures
            r == tick_of(old(self)@, alias@),
            final(self)@ == ticked(old(self)@, alias@),
    {
        let tick: usize = match self.counters.get(alias) {
            Some(n) => *n,
            None => {
                return 0;
            },
        };
        self.counters.insert(alias.to_owned(), tick.wrapping_add(1));
        tick as u64
    }
}

/// The total of some weights.
pub open spec fn total(ws: Seq<usize>) -> int
    decreases ws.len(),
{
    if ws.len() == 0 {
        0
    } else {
        total(ws.drop_last()) + ws.last()
    }
}

/// The total of the weights before the `i`-th.
pub open spec fn before(ws: Seq<usize>, i: int) -> int {
    total(ws.take(i))
}

/// The `tick`-th member of the Weyl sequence.
pub open spec fn spread(tick: u64) -> int {
    (tick * WEYL_STEP) % span()
}

/// The place in `0..total` that a tick points at.
pub open spec fn place(ws: Seq<usize>, tick: u64) -> int {
    (spread(tick) * total(ws)) / span()
}

/// Whether a tick points at the `i`-th weight: the weights are laid end to
/// end, and the tick's place lies within it.
pub open spec fn points_at(ws: Seq<usize>, tick: u64, i: int) -> bool {
    0 <= i < ws.len() && before(ws, i) <= place(ws, tick) < before(ws, i + 1)
}

proof fn lemma_before_step(ws: Seq<usize>, i: int)
    requires
        0 <= i < ws.len(),
    ensures
        before(ws, i + 1) == before(ws, i) + ws[i],
{
    assert(ws.take(i + 1).drop_last() =~= ws.take(i));
}

proof fn lemma_before_monotone(ws: Seq<usize>, i: int, j: int)
    requires
        0 <= i <= j <= ws.len(),
    ensures
        0 <= before(ws, i) <= before(ws, j),
    decreases j,
{
    if j > 0 {
        lemma_before_step(ws, j - 1);
        if i == j {
            lemma_before_monotone(ws, i - 1, j - 1);
        } else {
            lemma_before_monotone(ws, i, j - 1);
        }
    } else {
        assert(ws.take(0) =~= Seq::<usize>::empty());
    }
}

proof fn lemma_before_all(ws: Seq<usize>)
    ensures
        before(ws, ws.len() as int) == total(ws),
        total(ws) >= 0,
{
    assert(ws.take(ws.len() as int) =~= ws);
    lemma_before_monotone(ws, 0, ws.len() as int);
}

/// A place is below the total.
proof fn lemma_place_bound(ws: Seq<usize>, tick: u64)
    requires
        total(ws) > 0,
    ensures
        0 <= place(ws, tick) < total(ws),
{
    let s = spread(tick);
    let t = total(ws);
    assert(0 <= s < span());
    assert(0 <= s * t && s * t < span() * t) by (nonlinear_arith)
        requires
            0 <= s < span(),
            t > 0,
    ;
    assert(0 <= (s * t) / span() && (s * t) / span() < t) by (nonlinear_arith)
        requires
            0 <= s * t < span() * t,
            span() == 0x1_0000_0000_0000_0000,
    ;
}

/// The weight a tick points at: the weights are laid end to end and the
/// tick's member of the Weyl sequence, scaled to their total, falls in one.
pub fn pick(weights: &Vec<usize>, tick: u64) -> (r: usize)
    requires
        weights@.len() > 0,
        total(weights@) <= usize::MAX,
    ensures
        r < weights@.len(),
        total(weights@) > 0 ==> points_at(weights@, tick, r as int),
        total(weights@) == 0 ==> r == weights@.len() - 1,
{
    let ghost ws = weights@;
    let mut sum: usize = 0;
    let mut n: usize = 0;
    proof {
        assert(ws.take(0) =~= Seq::<usize>::empty());
        lemma_before_all(ws);
    }
    while n < weights.len()
        invariant
            ws == weights@,
            n <= ws.len(),
            sum == before(ws, n as int),
            before(ws, ws.len() as int) == total(ws),
            total(ws) <= usize::MAX,
        decreases ws.len() - n,
    {
        proof {
            lemma_before_step(ws, n as int);
            lemma_before_monotone(ws, n + 1, ws.len() as int);
        }
        sum += weights[n];
        n += 1;
    }
    let s: u64 = tick.wrapping_mul(WEYL_STEP);
    proof {
        assert(s == spread(tick));
        assert((s as int) * (sum as int) <= u128::MAX) by (nonlinear_arith)
            requires
                s <= u64::MAX,
                sum <= u64::MAX,
        ;
    }
    let product: u128 = (s as u128) * (sum as u128);
    assert(product >> 64 == product / 0x1_0000_0000_0000_0000u128) by (bit_vector);
    let wide: u128 = product >> 64;
    assert(wide == place(ws, tick));
    proof {
        if total(ws) > 0 {
            lemma_place_bound(ws, tick);
        } else {
            assert(spread(tick) * 0 == 0);
        }
    }
    let pos: usize = wide as usize;
    let mut acc: usize = 0;
    let mut i: usize = 0;
    while i < weights.len()
        invariant
            ws == weights@,
            i <= ws.len(),
            acc == before(ws, i as int),
            acc <= pos,
            pos == place(ws, tick),
            before(ws, ws.len() as int) == total(ws),
            total(ws) <= usize::MAX,
        decreases ws.len() - i,
    {
        proof {
            lemma_before_step(ws, i as int);
            lemma_before_monotone(ws, i + 1, ws.len() as int);
        }
        acc += weights[i];
        if pos < acc {
            proof {
                lemma_before_monotone(ws, i + 1, ws.len() as int);
            }
            return i;
        }
        i += 1;
    }
    weights.len() - 1
}

/// The inverse of the Weyl step modulo `2^64`.
pub const WEYL_INVERSE: u64 = 0xF1DE_83E1_9937_733D;

/// The tick at which the Weyl sequence is at `s`.
pub open spec fn tick_at(s: u64) -> u64 {
    ((s * WEYL_INVERSE) % span()) as u64
}

/// The Weyl sequence visits every 64-bit number exactly once in `2^64`
/// consecutive ticks: it reaches each, and no two ticks share one.
pub proof fn weyl_sequence_is_a_permutation(s: u64, a: u64, b: u64)
    ensures
        spread(tick_at(s)) == s,
        spread(a) == spread(b) ==> a == b,
{
    let m = span();
    let w = WEYL_STEP as int;
    let v = WEYL_INVERSE as int;
    assert((v * w) % m == 1) by (nonlinear_arith)
        requires
            v == 0xF1DE_83E1_9937_733D,
            w == 0x9E37_79B9_7F4A_7C15,
            m == 0x1_0000_0000_0000_0000,
    ;
    lemma_weyl_undo(s as int, v, w);
    assert((w * v) % m == 1) by {
        lemma_mul_is_commutative(w, v);
    }
    lemma_weyl_undo(a as int, w, v);
    lemma_weyl_undo(b as int, w, v);
}

/// Multiplying by one number and then by its inverse gives the start back.
proof fn lemma_weyl_undo(x: int, v: int, w: int)
    requires
        0 <= x < span(),
        (v * w) % span() == 1,
    ensures
        (((x * v) % span()) * w) % span() == x,
{
    let m = span();
    lemma_mul_mod_noop_left(x * v, w, m);
    lemma_mul_is_associative(x, v, w);
    lemma_mul_mod_noop_right(x, v * w, m);
    assert(x * 1 == x);
    lemma_small_mod(x as nat, m as nat);
}

/// The least number whose place is `p` or beyond, when the total is `t`.
pub open spec fn first_at(p: int, t: int) -> int {
    (p * span() + t - 1) / t
}

/// A number's place is at or beyond `p` exactly from `first_at` on.
proof fn lemma_first_at(s: int, p: int, t: int)
    requires
        t > 0,
    ensures
        p <= (s * t) / span() <==> first_at(p, t) <= s,
        p * span() <= first_at(p, t) * t < p * span() + t,
{
    let m = span();
    let f = first_at(p, t);
    let n = p * m + t - 1;
    lemma_fundamental_div_mod(n, t);
    lemma_mod_bound(n, t);
    lemma_mul_is_commutative(t, f);
    assert(f * t == n - n % t);
    let q = (s * t) / m;
    lemma_fundamental_div_mod(s * t, m);
    lemma_mod_bound(s * t, m);
    if p <= q {
        assert(p * m <= q * m) by (nonlinear_arith)
            requires
                p <= q,
                m > 0,
        ;
        lemma_mul_is_commutative(m, q);
        assert(s * t >= p * m);
        if s < f {
            assert(s * t <= (f - 1) * t) by (nonlinear_arith)
                requires
                    s <= f - 1,
                    t > 0,
            ;
            assert((f - 1) * t == f * t - t) by (nonlinear_arith);
        }
    }
    if f <= s {
        assert(f * t <= s * t) by (nonlinear_arith)
            requires
                f <= s,
                t > 0,
        ;
        assert(s * t >= p * m);
        if q < p {
            assert((q + 1) * m <= p * m) by (nonlinear_arith)
                requires
                    q + 1 <= p,
                    m > 0,
            ;
            assert((q + 1) * m == m * q + m) by (nonlinear_arith);
        }
    }
}

/// Traffic is proportional to weight: the `i`-th candidate is picked exactly
/// at the ticks whose Weyl number lies in one interval, and the share of that
/// interval in all `2^64` numbers is its share of the weight, to within one
/// number.
pub proof fn traffic_is_proportional(ws: Seq<usize>, i: int)
    requires
        0 <= i < ws.len(),
        total(ws) > 0,
    ensures
        ({
            let t = total(ws);
            let lo = first_at(before(ws, i), t);
            let hi = first_at(before(ws, i + 1), t);
            &&& forall|tick: u64| #[trigger] points_at(ws, tick, i) <==> lo <= spread(tick) < hi
            &&& -t < (hi - lo) * t - ws[i] * span() < t
        }),
{
    let t = total(ws);
    let lo = first_at(before(ws, i), t);
    let hi = first_at(before(ws, i + 1), t);
    assert forall|tick: u64| #[trigger] points_at(ws, tick, i) <==> lo <= spread(tick) < hi by {
        lemma_first_at(spread(tick), before(ws, i), t);
        lemma_first_at(spread(tick), before(ws, i + 1), t);
    }
    lemma_first_at(0, before(ws, i), t);
    lemma_first_at(0, before(ws, i + 1), t);
    lemma_before_step(ws, i);
    let p = before(ws, i);
    let w = ws[i] as int;
    assert((p + w) * span() == p * span() + w * span()) by (nonlinear_arith);
    assert((hi - lo) * t == hi * t - lo * t) by (nonlinear_arith);
}

/// Nobody starves: a candidate with any weight at all is picked at some tick,
/// whatever the others weigh.
pub proof fn no_candidate_starves(ws: Seq<usize>, i: int)
    requires
        0 <= i < ws.len(),
        ws[i] > 0,
        total(ws) <= span(),
    ensures
        exists|tick: u64| points_at(ws, tick, i),
{
    let t = total(ws);
    let m = span();
    let p = before(ws, i);
    lemma_before_all(ws);
    lemma_before_step(ws, i);
    lemma_before_monotone(ws, i + 1, ws.len() as int);
    lemma_before_monotone(ws, 0, i);
    traffic_is_proportional(ws, i);
    let lo = first_at(p, t);
    let hi = first_at(before(ws, i + 1), t);
    lemma_first_at(0, p, t);
    lemma_first_at(lo, p, t);
    lemma_first_at(lo, before(ws, i + 1), t);
    assert(0 <= lo) by {
        assert(p * m >= 0) by (nonlinear_arith)
            requires
                p >= 0,
                m > 0,
        ;
        if lo < 0 {
            assert(lo * t <= -t) by (nonlinear_arith)
                requires
                    lo <= -1,
                    t > 0,
            ;
        }
    }
    assert(lo < m) by {
        if lo >= m {
            assert(lo * t >= m * t) by (nonlinear_arith)
                requires
                    lo >= m,
                    t > 0,
            ;
            assert(p * m + t <= m * t) by (nonlinear_arith)
                requires
                    p + 1 <= t,
                    0 <= t <= m,
            ;
        }
    }
    assert(lo < hi) by {
        if hi <= lo {
            assert(p + 1 <= before(ws, i + 1));
            lemma_fundamental_div_mod(lo * t, m);
            lemma_mod_bound(lo * t, m);
            let q = (lo * t) / m;
            assert(before(ws, i + 1) <= q);
            assert(m * q >= m * (p + 1)) by (nonlinear_arith)
                requires
                    q >= p + 1,
                    m > 0,
            ;
            assert(m * (p + 1) == p * m + m) by (nonlinear_arith);
        }
    }
    let s = lo as u64;
    weyl_sequence_is_a_permutation(s, 0, 0);
    assert(points_at(ws, tick_at(s), i));
}

/// The Weyl number of the tick `n` after `start`; ticks wrap at `2^64`.
spec fn spread_after(start: u64, n: int) -> int {
    ((start + n) * WEYL_STEP) % span()
}

/// The remainder of a number that is near enough.
proof fn lemma_wrapped(x: int)
    requires
        -span() <= x < 2 * span(),
    ensures
        x % span() == if x < 0 {
            x + span()
        } else if x < span() {
            x
        } else {
            x - span()
        },
{
}

/// One step ahead on the circle of 64-bit numbers.
proof fn lemma_step_ahead(x: int, step: int, lo: int)
    requires
        0 <= x < span(),
        0 < step,
        0 <= lo,
        lo + step <= span(),
        (lo - x) % span() != 0,
    ensures
        step <= (lo - x) % span() ==> (lo - (x + step) % span()) % span() == (lo - x) % span()
            - step,
        step > (lo - x) % span() ==> lo <= (x + step) % span() < lo + step,
{
    lemma_wrapped(lo - x);
    lemma_wrapped(x + step);
    lemma_wrapped(lo - (x + step) % span());
}

/// 89 ticks on the Weyl sequence is a little ahead, and so it is 55 ticks
/// back.
proof fn lemma_near_members(start: u64, n: int)
    ensures
        spread_after(start, n + 89) == (spread_after(start, n) + 0x0149_517D_40E5_234D) % span(),
        spread_after(start, n - 55) == (spread_after(start, n) + 0x0214_D925_A6FF_577D) % span(),
        0 <= spread_after(start, n) < span(),
{
    let m = span();
    let y = (start + n) * WEYL_STEP;
    let a = 0x0149_517D_40E5_234Dint;
    let b = 0x0214_D925_A6FF_577Dint;
    assert((start + (n + 89)) * WEYL_STEP == y + a + 55 * m);
    assert((start + (n - 55)) * WEYL_STEP == y + b - 34 * m);
    lemma_mod_multiples_vanish(55, y + a, m);
    lemma_mod_multiples_vanish(-34, y + b, m);
    assert(m * 55 + (y + a) == y + a + 55 * m);
    assert(m * -34 + (y + b) == y + b - 34 * m);
    lemma_add_mod_noop(y, a, m);
    lemma_add_mod_noop(y, b, m);
    lemma_small_mod(a as nat, m as nat);
    lemma_small_mod(b as nat, m as nat);
    lemma_mod_bound(y, m);
}

/// From any of 144 members of the Weyl sequence in a row, 89 ticks on or 55
/// ticks back leads to another of them a little ahead, and so on, until an
/// interval as wide as either step is met.
proof fn lemma_interval_is_met(start: u64, n: int, lo: int, hi: int) -> (found: int)
    requires
        0 <= n < 144,
        0 <= lo,
        lo + 0x0214_D925_A6FF_577D <= hi <= span(),
    ensures
        0 <= found < 144,
        lo <= spread_after(start, found) < hi,
    decreases (lo - spread_after(start, n)) % span(),
{
    let x = spread_after(start, n);
    lemma_near_members(start, n);
    lemma_wrapped(lo - x);
    if (lo - x) % span() == 0 {
        n
    } else if n < 55 {
        lemma_step_ahead(x, 0x0149_517D_40E5_234D, lo);
        if 0x0149_517D_40E5_234D <= (lo - x) % span() {
            lemma_interval_is_met(start, n + 89, lo, hi)
        } else {
            n + 89
        }
    } else {
        lemma_step_ahead(x, 0x0214_D925_A6FF_577D, lo);
        if 0x0214_D925_A6FF_577D <= (lo - x) % span() {
            lemma_interval_is_met(start, n - 55, lo, hi)
        } else {
            n - 55
        }
    }
}

/// A candidate is found again soon: one with at least a hundredth part of
/// what the others weigh, as the floor leaves either of two, is picked within
/// any 144 ticks in a row, whatever tick they start at. (Ticks wrap at
/// `2^64`.)
pub proof fn a_hundredth_share_is_met_soon(ws: Seq<usize>, i: int, start: u64)
    requires
        0 <= i < ws.len(),
        ws[i] > 0,
        ws[i] * 101 >= total(ws),
    ensures
        exists|n: int|
            0 <= n < 144 && points_at(ws, #[trigger] (((start + n) % span()) as u64), i),
{
    let t = total(ws);
    let m = span();
    lemma_before_all(ws);
    lemma_before_step(ws, i);
    lemma_before_monotone(ws, 0, i);
    lemma_before_monotone(ws, i + 1, ws.len() as int);
    traffic_is_proportional(ws, i);
    let p = before(ws, i);
    let q = before(ws, i + 1);
    let lo = first_at(p, t);
    let hi = first_at(q, t);
    lemma_first_at(0, p, t);
    lemma_first_at(0, q, t);
    assert(0 <= lo) by {
        assert(p * m >= 0) by (nonlinear_arith)
            requires
                p >= 0,
                m > 0,
        ;
        if lo < 0 {
            assert(lo * t <= -t) by (nonlinear_arith)
                requires
                    lo <= -1,
                    t > 0,
            ;
        }
    }
    assert(hi <= m) by {
        if hi > m {
            assert(hi * t >= m * t + t) by (nonlinear_arith)
                requires
                    hi >= m + 1,
                    t > 0,
            ;
            assert(q * m <= m * t) by (nonlinear_arith)
                requires
                    q <= t,
                    m > 0,
            ;
        }
    }
    let w = ws[i] as int;
    let step = 0x0214_D925_A6FF_577Dint;
    assert(lo + step <= hi) by {
        if hi - lo < step {
            assert((hi - lo) * t <= step * t - t) by (nonlinear_arith)
                requires
                    hi - lo <= step - 1,
                    t > 0,
            ;
            assert(101 * step * t <= m * t) by (nonlinear_arith)
                requires
                    101 * step <= m,
                    t > 0,
            ;
            assert(101 * (step * t) == 101 * step * t) by (nonlinear_arith);
            assert(101 * (w * m) >= t * m) by (nonlinear_arith)
                requires
                    w * 101 >= t,
                    m > 0,
            ;
            lemma_mul_is_commutative(m, t);
        }
    }
    let n = lemma_interval_is_met(start, 0, lo, hi);
    let tick = ((start + n) % m) as u64;
    assert(spread(tick) == spread_after(start, n)) by {
        lemma_mul_mod_noop_left(start + n, WEYL_STEP as int, m);
    }
    assert(points_at(ws, tick, i));
}

/// A tick points at one weight only.
pub proof fn ticks_point_at_one_weight(ws: Seq<usize>, tick: u64, i: int, j: int)
    requires
        points_at(ws, tick, i),
        points_at(ws, tick, j),
    ensures
        i == j,
{
    if i < j {
        lemma_before_monotone(ws, i + 1, j);
    } else if j < i {
        lemma_before_monotone(ws, j + 1, i);
    }
}

/// What a candidate's weight is computed from.
#[derive(Debug, Clone, Copy, PartialEq, Eq, Structural)]
pub enum Standing {
    /// Measured: its effective latency against the best one. It is due
    /// `(best / effective)^k`.
    Warm { effective: Double, best: Double },
    /// Not measured in this mode yet. It is due `base * rate^k`: a fixed
    /// probe share, or a full one where nobody is measured, scaled by its
    /// success rate so that erroring cold candidates back off too.
    Cold { rate: Double, base: Double },
}

/// A success rate with the floor under it.
pub open spec fn floored_rate(rate: Double) -> Double {
    let least = Double { bits: MIN_SUCCESS_RATE };
    if least.below(rate) {
        rate
    } else {
        least
    }
}

fn floor_rate(rate: Double) -> (r: Double)
    ensures
        r == floored_rate(rate),
{
    let least = Double::from_bits(MIN_SUCCESS_RATE);
    if least.less_than(rate) {
        rate
    } else {
        least
    }
}

/// A latency average as a divisor's numerator: at least one millisecond.
pub open spec fn at_least_one(ms: u64) -> u64 {
    if ms == 0 {
        1
    } else {
        ms
    }
}

/// Whether `e` is the effective latency of a candidate: none while it is
/// cold, else what `effective` makes of its average and success rate, both
/// with a floor under them.
pub open spec fn is_effective<E: Fn(u64, Double) -> Double>(
    st: CandidateStats,
    mode: LatencyMode,
    effective: &E,
    e: Option<Double>,
) -> bool {
    if st.average(mode) == COLD {
        e is None
    } else {
        e matches Some(x) && call_ensures(
            effective,
            (at_least_one(st.average(mode)), floored_rate(st.rate())),
            x,
        )
    }
}

/// The least effective latency, or infinity while everyone is cold.
pub open spec fn best_of(es: Seq<Option<Double>>) -> Double
    decreases es.len(),
{
    if es.len() == 0 {
        Double { bits: crate::double::INFINITY }
    } else {
        let best = best_of(es.drop_last());
        match es.last() {
            Some(e) => if e.below(best) {
                e
            } else {
                best
            },
            None => best,
        }
    }
}

/// How a candidate stands against the best.
pub open spec fn standing(e: Option<Double>, rate: Double, best: Double) -> Standing {
    match e {
        Some(effective) => Standing::Warm { effective, best },
        None => Standing::Cold {
            rate: floored_rate(rate),
            base: Double {
                bits: if best.finite() {
                    COLD_PROBE_WEIGHT
                } else {
                    crate::double::ONE
                },
            },
        },
    }
}

/// A weight with the floor under it.
pub open spec fn floored(w: usize) -> usize {
    if w < WEIGHT_FLOOR {
        WEIGHT_FLOOR
    } else {
        w
    }
}

/// Whether every candidate has a slot in the tracker.
pub open spec fn registered(candidates: Seq<ResolvedCandidate>, tracker: &Tracker) -> bool {
    forall|i: int|
        0 <= i < candidates.len() ==> (#[trigger] candidates[i]).stats_index < tracker@.len()
}

/// Whether `es` holds the effective latency of each candidate.
pub open spec fn effectives<E: Fn(u64, Double) -> Double>(
    candidates: Seq<ResolvedCandidate>,
    tracker: &Tracker,
    mode: LatencyMode,
    effective: &E,
    es: Seq<Option<Double>>,
) -> bool {
    &&& es.len() == candidates.len()
    &&& forall|i: int|
        0 <= i < candidates.len() ==> is_effective(
            tracker@[candidates[i].stats_index as int],
            mode,
            effective,
            #[trigger] es[i],
        )
}

/// Whether `w` is the weight of a candidate whose effective latency is `e`,
/// the best being `best`.
pub open spec fn is_weight<S: Fn(Double, Standing) -> usize>(
    st: CandidateStats,
    e: Option<Double>,
    best: Double,
    k: Double,
    share: &S,
    w: usize,
) -> bool {
    exists|raw: usize| #[trigger]
        call_ensures(share, (k, standing(e, st.rate(), best)), raw) && w == floored(raw)
}

/// Whether `ws` holds the weight of each candidate.
pub open spec fn weighed<S: Fn(Double, Standing) -> usize>(
    candidates: Seq<ResolvedCandidate>,
    tracker: &Tracker,
    es: Seq<Option<Double>>,
    k: Double,
    share: &S,
    ws: Seq<usize>,
) -> bool {
    &&& ws.len() == candidates.len()
    &&& forall|i: int|
        0 <= i < candidates.len() ==> is_weight(
            tracker@[candidates[i].stats_index as int],
            es[i],
            best_of(es),
            k,
            share,
            #[trigger] ws[i],
        )
}

/// The effective latency of each candidate: its latency average over its
/// success rate, the expected time per successful response. `effective`
/// computes `average / rate`; `None` means cold.
pub fn effective_latencies<E: Fn(u64, Double) -> Double>(
    candidates: &[ResolvedCandidate],
    tracker: &Tracker,
    mode: LatencyMode,
    effective: &E,
) -> (es: Vec<Option<Double>>)
    requires
        registered(candidates@, tracker),
        forall|ms: u64, rate: Double| call_requires(effective, (ms, rate)),
    ensures
        effectives(candidates@, tracker, mode, effective, es@),
{
    let mut es: Vec<Option<Double>> = Vec::new();
    let mut i: usize = 0;
    while i < candidates.len()
        invariant
            i <= candidates@.len(),
            registered(candidates@, tracker),
            forall|ms: u64, rate: Double| call_requires(effective, (ms, rate)),
            es@.len() == i,
            forall|j: int|
                0 <= j < i ==> is_effective(
                    tracker@[candidates@[j].stats_index as int],
                    mode,
                    effective,
                    #[trigger] es@[j],
                ),
        decreases candidates@.len() - i,
    {
        assert(candidates@[i as int].stats_index < tracker@.len());
        let stats = tracker.stats(candidates[i].stats_index);
        if stats.is_cold(mode) {
            es.push(None);
        } else {
            let average: u64 = stats.ewma_ms(mode);
            let ms: u64 = if average == 0 {
                1
            } else {
                average
            };
            es.push(Some(effective(ms, floor_rate(stats.success_rate()))));
        }
        i += 1;
    }
    es
}

/// The best effective latency; infinite while everyone is cold.
pub fn best_latency(es: &Vec<Option<Double>>) -> (r: Double)
    ensures
        r == best_of(es@),
{
    let mut best = Double::infinity();
    let mut i: usize = 0;
    assert(es@.take(0) =~= Seq::<Option<Double>>::empty());
    while i < es.len()
        invariant
            i <= es@.len(),
            best == best_of(es@.take(i as int)),
        decreases es@.len() - i,
    {
        proof {
            assert(es@.take(i + 1).drop_last() =~= es@.take(i as int));
            assert(es@.take(i + 1).last() == es@[i as int]);
        }
        if let Some(e) = es[i] {
            if e.less_than(best) {
                best = e;
            }
        }
        i += 1;
    }
    assert(es@.take(i as int) =~= es@);
    best
}

/// The weight of each candidate. `share` gives a candidate's due at sharpness
/// `k` in units of the resolution; the floor keeps everyone probed.
pub fn weigh<S: Fn(Double, Standing) -> usize>(
    candidates: &[ResolvedCandidate],
    tracker: &Tracker,
    es: &Vec<Option<Double>>,
    k: Double,
    share: &S,
) -> (ws: Vec<usize>)
    requires
        registered(candidates@, tracker),
        es@.len() == candidates@.len(),
        forall|s: Standing| call_requires(share, (k, s)),
        forall|s: Standing, w: usize| call_ensures(share, (k, s), w) ==> w <= WEIGHT_RESOLUTION,
    ensures
        weighed(candidates@, tracker, es@, k, share, ws@),
        forall|i: int|
            0 <= i < ws@.len() ==> WEIGHT_FLOOR <= #[trigger] ws@[i] <= WEIGHT_RESOLUTION,
{
    let best = best_latency(es);
    let base = if best.is_finite() {
        Double::from_bits(COLD_PROBE_WEIGHT)
    } else {
        Double::one()
    };
    let mut ws: Vec<usize> = Vec::new();
    let mut i: usize = 0;
    while i < candidates.len()
        invariant
            i <= candidates@.len(),
            registered(candidates@, tracker),
            es@.len() == candidates@.len(),
            forall|s: Standing| call_requires(share, (k, s)),
            forall|s: Standing, w: usize| call_ensures(share, (k, s), w) ==> w <= WEIGHT_RESOLUTION,
            best == best_of(es@),
            base.bits == if best.finite() {
                COLD_PROBE_WEIGHT
            } else {
                crate::double::ONE
            },
            ws@.len() == i,
            forall|j: int|
                0 <= j < i ==> is_weight(
                    tracker@[candidates@[j].stats_index as int],
                    es@[j],
                    best,
                    k,
                    share,
                    #[trigger] ws@[j],
                ),
            forall|j: int| 0 <= j < i ==> WEIGHT_FLOOR <= #[trigger] ws@[j] <= WEIGHT_RESOLUTION,
        decreases candidates@.len() - i,
    {
        assert(candidates@[i as int].stats_index < tracker@.len());
        let rate = tracker.stats(candidates[i].stats_index).success_rate();
        let s = match es[i] {
            Some(effective) => Standing::Warm { effective, best },
            None => Standing::Cold { rate: floor_rate(rate), base },
        };
        let raw: usize = share(k, s);
        let w: usize = if raw < WEIGHT_FLOOR {
            WEIGHT_FLOOR
        } else {
            raw
        };
        assert(is_weight(
            tracker@[candidates@[i as int].stats_index as int],
            es@[i as int],
            best,
            k,
            share,
            w,
        ));
        ws.push(w);
        i += 1;
    }
    ws
}

proof fn lemma_total_bound(ws: Seq<usize>)
    requires
        forall|i: int|
            0 <= i < ws.len() ==> WEIGHT_FLOOR <= #[trigger] ws[i] <= WEIGHT_RESOLUTION,
    ensures
        WEIGHT_FLOOR * ws.len() <= total(ws) <= WEIGHT_RESOLUTION * ws.len(),
    decreases ws.len(),
{
    if ws.len() > 0 {
        let init = ws.drop_last();
        assert forall|i: int| 0 <= i < init.len() implies WEIGHT_FLOOR <= #[trigger] init[i]
            <= WEIGHT_RESOLUTION by {
            assert(init[i] == ws[i]);
        }
        lemma_total_bound(init);
    }
}

/// Whether `c` is the candidate that a tick points at when each has the
/// weight it is due.
pub open spec fn selected<E: Fn(u64, Double) -> Double, S: Fn(Double, Standing) -> usize>(
    candidates: Seq<ResolvedCandidate>,
    tracker: &Tracker,
    tick: u64,
    k: Double,
    mode: LatencyMode,
    effective: &E,
    share: &S,
    c: ResolvedCandidate,
) -> bool {
    exists|es: Seq<Option<Double>>, ws: Seq<usize>, i: int|
        {
            &&& #[trigger] effectives(candidates, tracker, mode, effective, es)
            &&& weighed(candidates, tracker, es, k, share, ws)
            &&& #[trigger] points_at(ws, tick, i)
            &&& c == candidates[i]
        }
}

/// Pick a candidate for `alias` by proportional weighting.
///
/// Each candidate gets traffic proportional to its weight, so slower or
/// erroring candidates keep a small but never-zero share. That share doubles
/// as the probe through which a recovered candidate wins traffic back.
pub fn select_candidate<'a, E: Fn(u64, Double) -> Double, S: Fn(Double, Standing) -> usize>(
    alias: &str,
    candidates: &'a [ResolvedCandidate],
    tracker: &Tracker,
    rr: &mut RoundRobinState,
    k: Double,
    mode: LatencyMode,
    effective: &E,
    share: &S,
) -> (r: Option<&'a ResolvedCandidate>)
    requires
        registered(candidates@, tracker),
        candidates@.len() * WEIGHT_RESOLUTION <= usize::MAX,
        forall|ms: u64, rate: Double| call_requires(effective, (ms, rate)),
        forall|s: Standing| call_requires(share, (k, s)),
        forall|s: Standing, w: usize| call_ensures(share, (k, s), w) ==> w <= WEIGHT_RESOLUTION,
    ensures
        candidates@.len() == 0 ==> r is None && final(rr)@ == old(rr)@,
        candidates@.len() > 0 ==> {
            &&& final(rr)@ == ticked(old(rr)@, alias@)
            &&& r matches Some(c) && selected(
                candidates@,
                tracker,
                tick_of(old(rr)@, alias@),
                k,
                mode,
                effective,
                share,
                *c,
            )
        },
{
    if candidates.len() == 0 {
        return None;
    }
    let es = effective_latencies(candidates, tracker, mode, effective);
    let ws = weigh(candidates, tracker, &es, k, share);
    proof {
        lemma_total_bound(ws@);
    }
    let tick: u64 = rr.next_tick(alias);
    let i: usize = pick(&ws, tick);
    assert(points_at(ws@, tick, i as int));
    Some(&candidates[i])
}

/// The reference is a lower bound of all effective latencies, and one of them
/// unless everyone is cold.
pub proof fn best_is_the_least(es: Seq<Option<Double>>)
    ensures
        forall|i: int|
            0 <= i < es.len() ==> (#[trigger] es[i] matches Some(e) ==> !e.below(best_of(es))),
        !best_of(es).nan(),
        (forall|i: int| 0 <= i < es.len() ==> #[trigger] es[i] is None) ==> !best_of(es).finite(),
        best_of(es).finite() ==> exists|i: int|
            0 <= i < es.len() && #[trigger] es[i] == Some(best_of(es)),
    decreases es.len(),
{
    if es.len() > 0 {
        let init = es.drop_last();
        best_is_the_least(init);
        let best = best_of(es);
        assert forall|i: int| 0 <= i < es.len() implies (#[trigger] es[i] matches Some(e)
            ==> !e.below(best)) by {
            if i < init.len() {
                assert(init[i] == es[i]);
            }
        }
        if forall|i: int| 0 <= i < es.len() ==> #[trigger] es[i] is None {
            assert(es[es.len() - 1] is None);
            assert forall|i: int| 0 <= i < init.len() implies #[trigger] init[i] is None by {
                assert(es[i] is None);
            }
        }
        if best.finite() {
            if best_of(init) == best && !(es.last() == Some(best)) {
                let i = choose|i: int| 0 <= i < init.len() && #[trigger] init[i] == Some(best);
                assert(es[i] == Some(best));
            } else {
                assert(es[es.len() - 1] == Some(best));
            }
        }
    }
}

/// Whether `effective` and `share` depend on the ratios of latencies alone,
/// as far as averages below `limit` are multiplied by `factor`: an effective
/// latency is then `rescale`d, which keeps the order of those that occur
/// (`fits`), and a share is the same for rescaled latencies. Rates are from 0
/// to 1, with the floor under them.
pub open spec fn scale_free<E: Fn(u64, Double) -> Double, S: Fn(Double, Standing) -> usize>(
    effective: &E,
    share: &S,
    k: Double,
    factor: nat,
    limit: nat,
    fits: spec_fn(Double) -> bool,
    rescale: spec_fn(Double) -> Double,
) -> bool {
    &&& forall|ms: u64, scaled: u64, rate: Double, a: Double, b: Double|
        {
            &&& 1 <= ms
            &&& scaled == ms * factor
            &&& scaled < limit
            &&& rate.unit()
            &&& #[trigger] call_ensures(effective, (ms, floored_rate(rate)), a)
            &&& #[trigger] call_ensures(effective, (scaled, floored_rate(rate)), b)
        } ==> fits(a) && b == rescale(a)
    &&& forall|a: Double| #[trigger] fits(a) ==> a.finite() && rescale(a).finite()
    &&& forall|a: Double, b: Double| #[trigger]
        fits(a) && #[trigger] fits(b) ==> a.below(b) == rescale(a).below(rescale(b))
    &&& forall|a: Double, b: Double, v: usize, w: usize|
        {
            &&& fits(a)
            &&& fits(b)
            &&& #[trigger] call_ensures(share, (k, Standing::Warm { effective: a, best: b }), v)
            &&& #[trigger] call_ensures(
                share,
                (k, Standing::Warm { effective: rescale(a), best: rescale(b) }),
                w,
            )
        } ==> v == w
}

/// Whether every candidate is measured in both trackers, at the same success
/// rate, its average in the second `factor` times that in the first, and
/// below `limit`.
pub open spec fn slowed_alike(
    candidates: Seq<ResolvedCandidate>,
    fast: &Tracker,
    slow: &Tracker,
    mode: LatencyMode,
    factor: nat,
    limit: nat,
) -> bool {
    forall|i: int| #![trigger candidates[i]]
        0 <= i < candidates.len() ==> {
            let a = fast@[candidates[i].stats_index as int];
            let b = slow@[candidates[i].stats_index as int];
            &&& a.average(mode) != COLD && b.average(mode) != COLD
            &&& a.rate() == b.rate() && a.rate().unit()
            &&& 1 <= a.average(mode) && 1 <= b.average(mode)
            &&& b.average(mode) == a.average(mode) * factor < limit
        }
}

proof fn lemma_best_rescales(
    es: Seq<Option<Double>>,
    fs: Seq<Option<Double>>,
    fits: spec_fn(Double) -> bool,
    rescale: spec_fn(Double) -> Double,
)
    requires
        es.len() == fs.len() > 0,
        forall|i: int|
            0 <= i < es.len() ==> (#[trigger] es[i] matches Some(a) && fits(a) && fs[i] == Some(
                rescale(a),
            )),
        forall|a: Double| #[trigger] fits(a) ==> a.finite() && rescale(a).finite(),
        forall|a: Double, b: Double| #[trigger]
            fits(a) && #[trigger] fits(b) ==> a.below(b) == rescale(a).below(rescale(b)),
    ensures
        fits(best_of(es)),
        best_of(fs) == rescale(best_of(es)),
    decreases es.len(),
{
    let init = es.drop_last();
    let last = es[es.len() - 1];
    let a = last->0;
    assert(fits(a) && fs[es.len() - 1] == Some(rescale(a)));
    let infinity = Double { bits: crate::double::INFINITY };
    a.finite_is_below_infinity(infinity);
    rescale(a).finite_is_below_infinity(infinity);
    if init.len() > 0 {
        assert forall|i: int| 0 <= i < init.len() implies (#[trigger] init[i] matches Some(a)
            && fits(a) && fs.drop_last()[i] == Some(rescale(a))) by {
            assert(init[i] == es[i]);
        }
        lemma_best_rescales(init, fs.drop_last(), fits, rescale);
        assert(fits(best_of(init)));
    } else {
        assert(best_of(init) == infinity);
        assert(best_of(fs.drop_last()) == infinity);
    }
}

/// Only the ratios of latencies count: where every measured latency is
/// multiplied by the same factor, the same tick selects the same candidate.
pub proof fn selection_is_scale_invariant<
    E: Fn(u64, Double) -> Double,
    S: Fn(Double, Standing) -> usize,
>(
    candidates: Seq<ResolvedCandidate>,
    fast: &Tracker,
    slow: &Tracker,
    tick: u64,
    k: Double,
    mode: LatencyMode,
    effective: &E,
    share: &S,
    factor: nat,
    limit: nat,
    fits: spec_fn(Double) -> bool,
    rescale: spec_fn(Double) -> Double,
    a: ResolvedCandidate,
    b: ResolvedCandidate,
)
    requires
        scale_free(effective, share, k, factor, limit, fits, rescale),
        slowed_alike(candidates, fast, slow, mode, factor, limit),
        selected(candidates, fast, tick, k, mode, effective, share, a),
        selected(candidates, slow, tick, k, mode, effective, share, b),
    ensures
        a == b,
{
    let (es, ws, i) = choose|es: Seq<Option<Double>>, ws: Seq<usize>, i: int|
        {
            &&& #[trigger] effectives(candidates, fast, mode, effective, es)
            &&& weighed(candidates, fast, es, k, share, ws)
            &&& #[trigger] points_at(ws, tick, i)
            &&& a == candidates[i]
        };
    let (fs, vs, j) = choose|fs: Seq<Option<Double>>, vs: Seq<usize>, j: int|
        {
            &&& #[trigger] effectives(candidates, slow, mode, effective, fs)
            &&& weighed(candidates, slow, fs, k, share, vs)
            &&& #[trigger] points_at(vs, tick, j)
            &&& b == candidates[j]
        };
    assert forall|n: int| 0 <= n < es.len() implies (#[trigger] es[n] matches Some(x) && fits(x)
        && fs[n] == Some(rescale(x))) by {
        let c = candidates[n];
        let p = fast@[c.stats_index as int];
        let q = slow@[c.stats_index as int];
        assert(is_effective(p, mode, effective, es[n]));
        assert(is_effective(q, mode, effective, fs[n]));
    }
    lemma_best_rescales(es, fs, fits, rescale);
    assert forall|n: int| 0 <= n < ws.len() implies #[trigger] ws[n] == vs[n] by {
        let c = candidates[n];
        let p = fast@[c.stats_index as int];
        let q = slow@[c.stats_index as int];
        assert(is_weight(p, es[n], best_of(es), k, share, ws[n]));
        assert(is_weight(q, fs[n], best_of(fs), k, share, vs[n]));
        let x = es[n]->0;
        assert(fits(x) && fits(best_of(es)));
    }
    assert(ws =~= vs);
    ticks_point_at_one_weight(ws, tick, i, j);
}

/// The rate a latency is divided by is the candidate's own success rate from a
/// thousandth on, and a thousandth below that: of two rates of which one is
/// above the floor, the lower stays the lower.
pub proof fn rates_count_in_full_above_the_floor(a: Double, b: Double)
    requires
        !a.nan(),
        !b.nan(),
    ensures
        ({
            let least = Double { bits: 0x3F50_624D_D2F1_A9FC };
            &&& least.scaled() <= a.scaled() ==> floored_rate(a) == a
            &&& a.scaled() < least.scaled() ==> floored_rate(a) == least
            &&& least.scaled() <= floored_rate(a).scaled()
            &&& a.below(b) && least.below(b) ==> floored_rate(a).below(floored_rate(b))
        }),
{
    let least = Double { bits: 0x3F50_624D_D2F1_A9FC };
    crate::double::doubles_are_ordered_by_their_bits(least, a);
    crate::double::doubles_are_ordered_by_their_bits(least, b);
    crate::double::doubles_are_ordered_by_their_bits(least, Double { bits: 0 });
    crate::double::doubles_are_ordered_by_their_bits(Double { bits: 0 }, least);
    crate::double::exponents_double_the_value(0);
    if a.scaled() == least.scaled() {
        crate::double::equal_values_have_equal_bits(a, least);
    }
}

/// A rate that is no number counts as the floor.
pub proof fn rates_that_are_no_number_count_as_the_floor(rate: Double)
    requires
        rate.nan(),
    ensures
        floored_rate(rate).bits == 0x3F50_624D_D2F1_A9FC,
{
}

/// A candidate has an effective latency exactly once it is measured, and that
/// is what its average, of at least a millisecond, and its success rate, of at
/// least a thousandth, give.
pub proof fn effective_latencies_come_from_average_and_rate<E: Fn(u64, Double) -> Double>(
    st: CandidateStats,
    mode: LatencyMode,
    effective: &E,
    e: Option<Double>,
)
    requires
        is_effective(st, mode, effective, e),
    ensures
        e is None <==> st.average(mode) == 0xFFFF_FFFF_FFFF_FFFF,
        e matches Some(x) ==> exists|ms: u64, rate: Double|
            {
                &&& #[trigger] call_ensures(effective, (ms, rate), x)
                &&& ms >= 1
                &&& st.average(mode) >= 1 ==> ms == st.average(mode)
                &&& st.average(mode) == 0 ==> ms == 1
                &&& st.rate().bits >= 0x3F50_624D_D2F1_A9FC && st.rate().bits
                    <= 0x7FF0_0000_0000_0000 ==> rate == st.rate()
                &&& !(st.rate().bits >= 0x3F50_624D_D2F1_A9FC && st.rate().bits
                    <= 0x7FF0_0000_0000_0000) ==> rate.bits == 0x3F50_624D_D2F1_A9FC
            },
{
    let least = Double { bits: 0x3F50_624D_D2F1_A9FC };
    crate::double::doubles_are_ordered_by_their_bits(least, st.rate());
    if let Some(x) = e {
        let ms = at_least_one(st.average(mode));
        let rate = floored_rate(st.rate());
        assert(call_ensures(effective, (ms, rate), x));
    }
}

/// Of two measured candidates with the same average, the one that fails more
/// often is weighed by a strictly lower rate, down to the floor.
pub proof fn errors_lower_the_rate_that_counts(a: CandidateStats, b: CandidateStats)
    requires
        !a.rate().nan(),
        (Double { bits: 0x3F50_624D_D2F1_A9FC }).below(b.rate()),
        a.rate().below(b.rate()),
    ensures
        floored_rate(a.rate()).below(floored_rate(b.rate())),
        floored_rate(b.rate()) == b.rate(),
{
    rates_count_in_full_above_the_floor(a.rate(), b.rate());
    rates_count_in_full_above_the_floor(b.rate(), b.rate());
}

/// The Weyl sequence starts at zero and goes on by one step, around the circle
/// of 64-bit numbers.
pub proof fn the_weyl_sequence_goes_on_by_one_step(tick: u64)
    ensures
        spread(0) == 0,
        tick < u64::MAX ==> spread((tick + 1) as u64) == (spread(tick) + 0x9E37_79B9_7F4A_7C15)
            % 0x1_0000_0000_0000_0000,
        0 <= spread(tick) < 0x1_0000_0000_0000_0000,
{
    let m = span();
    let w = WEYL_STEP as int;
    lemma_mod_bound(tick * w, m);
    if tick < u64::MAX {
        assert((tick + 1) * w == tick * w + w) by (nonlinear_arith);
        lemma_add_mod_noop(tick * w, w, m);
        lemma_small_mod(w as nat, m as nat);
    }
}

/// Weights add up from nothing.
pub proof fn weights_add_up(ws: Seq<usize>, w: usize)
    ensures
        total(Seq::empty()) == 0,
        total(ws.push(w)) == total(ws) + w,
{
    assert(ws.push(w).drop_last() =~= ws);
}

/// A tick points at the weight within which its share of the circle falls,
/// when the weights are laid end to end: none of them ends at or before it
/// earlier, and that one ends behind it.
pub proof fn ticks_point_where_their_share_falls(ws: Seq<usize>, tick: u64, i: int)
    requires
        0 <= i < ws.len(),
    ensures
        points_at(ws, tick, i) <==> total(ws.take(i)) * 0x1_0000_0000_0000_0000 <= spread(tick)
            * total(ws) < total(ws.take(i + 1)) * 0x1_0000_0000_0000_0000,
{
    let x = spread(tick) * total(ws);
    let p = total(ws.take(i));
    let q = total(ws.take(i + 1));
    assert(x / 0x1_0000_0000_0000_0000 * 0x1_0000_0000_0000_0000 <= x < (x
        / 0x1_0000_0000_0000_0000 + 1) * 0x1_0000_0000_0000_0000);
}

/// A tick of an alias that has a counter moves that counter on by one, around
/// at its end, and no other; an alias without one stays at zero.
pub proof fn ticks_move_one_counter(
    counters: Map<Seq<char>, usize>,
    alias: Seq<char>,
    other: Seq<char>,
)
    ensures
        counters.contains_key(alias) ==> tick_of(counters, alias) == counters[alias],
        !counters.contains_key(alias) ==> tick_of(counters, alias) == 0 && ticked(counters, alias)
            == counters,
        ticked(counters, alias).dom() == counters.dom(),
        counters.contains_key(alias) && counters[alias] < usize::MAX ==> ticked(
            counters,
            alias,
        )[alias] == counters[alias] + 1,
        counters.contains_key(alias) && counters[alias] == usize::MAX ==> ticked(
            counters,
            alias,
        )[alias] == 0,
        other != alias && counters.contains_key(other) ==> ticked(counters, alias)[other]
            == counters[other],
{
    assert(ticked(counters, alias).dom() =~= counters.dom());
}

/// The best effective latency is infinite where none is below infinity.
pub proof fn nothing_better_is_infinite(es: Seq<Option<Double>>)
    ensures
        !best_of(es).finite() ==> best_of(es).bits == 0x7FF0_0000_0000_0000 || exists|i: int|
            0 <= i < es.len() && #[trigger] es[i] == Some(best_of(es)),
        forall|i: int|
            0 <= i < es.len() ==> (#[trigger] es[i] matches Some(e) ==> e.finite()
                ==> best_of(es).bits != 0x7FF0_0000_0000_0000),
    decreases es.len(),
{
    best_is_the_least(es);
    let best = best_of(es);
    let infinity = Double { bits: 0x7FF0_0000_0000_0000 };
    assert forall|i: int| 0 <= i < es.len() implies (#[trigger] es[i] matches Some(e) ==> e.finite()
        ==> best.bits != 0x7FF0_0000_0000_0000) by {
        if let Some(e) = es[i] {
            if e.finite() && best.bits == 0x7FF0_0000_0000_0000 {
                e.finite_is_below_infinity(infinity);
                assert(best == infinity);
            }
        }
    }
    if es.len() > 0 {
        let init = es.drop_last();
        nothing_better_is_infinite(init);
        if !best.finite() && best.bits != 0x7FF0_0000_0000_0000 {
            if es.last() == Some(best) {
                assert(es[es.len() - 1] == Some(best));
            } else {
                assert(best == best_of(init));
                let i = choose|i: int| 0 <= i < init.len() && #[trigger] init[i] == Some(best);
                assert(es[i] == Some(best));
            }
        }
    }
}

/// A measured candidate is judged by its own effective latency against the
/// best; an unmeasured one by its success rate, of at least a thousandth, at a
/// quarter of a share while somebody is measured and at a full one otherwise.
pub proof fn candidates_stand_by_what_is_known_of_them(
    e: Option<Double>,
    rate: Double,
    best: Double,
)
    ensures
        e matches Some(x) ==> standing(e, rate, best) == (Standing::Warm { effective: x, best }),
        e is None ==> (standing(e, rate, best) matches Standing::Cold { rate: r, base } && {
            &&& r == floored_rate(rate)
            &&& best.finite() ==> base.bits == 0x3FD0_0000_0000_0000
            &&& !best.finite() ==> base.bits == 0x3FF0_0000_0000_0000
        }),
{
}

/// No weight is below ten, and one that is not below ten stays.
pub proof fn weights_have_a_floor(w: usize)
    ensures
        floored(w) >= 10,
        w >= 10 ==> floored(w) == w,
        w <= 10 ==> floored(w) == 10,
{
}

/// A weight is what `share` gives for how a candidate stands, with the floor
/// under it.
pub proof fn weights_come_from_standings<S: Fn(Double, Standing) -> usize>(
    st: CandidateStats,
    e: Option<Double>,
    best: Double,
    k: Double,
    share: &S,
    w: usize,
)
    requires
        is_weight(st, e, best, k, share, w),
    ensures
        w >= 10,
        w > 10 ==> call_ensures(share, (k, standing(e, st.rate(), best)), w),
        w == 10 ==> exists|raw: usize| #[trigger]
            call_ensures(share, (k, standing(e, st.rate(), best)), raw) && raw <= 10,
{
    let raw = choose|raw: usize| #[trigger]
        call_ensures(share, (k, standing(e, st.rate(), best)), raw) && w == floored(raw);
    assert(call_ensures(share, (k, standing(e, st.rate(), best)), raw));
}

/// The candidate that is selected is the one the tick points at among weights
/// of which each belongs to the candidate at its place: to that one's own
/// averages in the mode, judged against the best of all.
pub proof fn selections_weigh_every_candidate_by_its_own_averages<
    E: Fn(u64, Double) -> Double,
    S: Fn(Double, Standing) -> usize,
>(
    cs: Seq<ResolvedCandidate>,
    tracker: &Tracker,
    tick: u64,
    k: Double,
    mode: LatencyMode,
    effective: &E,
    share: &S,
    c: ResolvedCandidate,
)
    requires
        selected(cs, tracker, tick, k, mode, effective, share, c),
    ensures
        exists|es: Seq<Option<Double>>, ws: Seq<usize>, i: int|
            #![trigger best_of(es), points_at(ws, tick, i)]
            {
                &&& es.len() == cs.len() && ws.len() == cs.len()
                &&& forall|n: int|
                    0 <= n < cs.len() ==> is_effective(
                        tracker@[(#[trigger] cs[n]).stats_index as int],
                        mode,
                        effective,
                        es[n],
                    ) && is_weight(
                        tracker@[cs[n].stats_index as int],
                        es[n],
                        best_of(es),
                        k,
                        share,
                        ws[n],
                    )
                &&& points_at(ws, tick, i)
                &&& c == cs[i]
            },
{
    let (es, ws, i) = choose|es: Seq<Option<Double>>, ws: Seq<usize>, i: int|
        {
            &&& #[trigger] effectives(cs, tracker, mode, effective, es)
            &&& weighed(cs, tracker, es, k, share, ws)
            &&& #[trigger] points_at(ws, tick, i)
            &&& c == cs[i]
        };
    let best = best_of(es);
    assert forall|n: int| 0 <= n < cs.len() implies is_effective(
        tracker@[(#[trigger] cs[n]).stats_index as int],
        mode,
        effective,
        es[n],
    ) && is_weight(tracker@[cs[n].stats_index as int], es[n], best, k, share, ws[n]) by {
        assert(is_effective(tracker@[cs[n].stats_index as int], mode, effective, es[n]));
        assert(is_weight(tracker@[cs[n].stats_index as int], es[n], best, k, share, ws[n]));
    }
}

/// Effective latencies and weights belong to the candidates at their places.
pub proof fn each_candidate_has_its_own_weight<
    E: Fn(u64, Double) -> Double,
    S: Fn(Double, Standing) -> usize,
>(
    cs: Seq<ResolvedCandidate>,
    tracker: &Tracker,
    mode: LatencyMode,
    k: Double,
    effective: &E,
    share: &S,
    es: Seq<Option<Double>>,
    ws: Seq<usize>,
    n: int,
)
    requires
        effectives(cs, tracker, mode, effective, es),
        weighed(cs, tracker, es, k, share, ws),
        0 <= n < cs.len(),
    ensures
        es.len() == cs.len(),
        ws.len() == cs.len(),
        is_effective(tracker@[cs[n].stats_index as int], mode, effective, es[n]),
        is_weight(tracker@[cs[n].stats_index as int], es[n], best_of(es), k, share, ws[n]),
{
    assert(is_effective(tracker@[cs[n].stats_index as int], mode, effective, es[n]));
    assert(is_weight(tracker@[cs[n].stats_index as int], es[n], best_of(es), k, share, ws[n]));
}

/// What the counters of the schedule give: each alias has its own, that starts
/// at zero, is registered once, and goes on by one with every tick.
pub proof fn counters_start_at_zero_and_go_on(
    rr: &mut RoundRobinState,
    alias: &str,
    tick: u64,
    other: &mut RoundRobinState,
    name: String,
)
    requires
        call_ensures(RoundRobinState::next_tick, (rr, alias), tick),
        call_ensures(RoundRobinState::register_alias, (other, name), ()),
    ensures
        old(rr)@.contains_key(alias@) ==> tick == old(rr)@[alias@],
        !old(rr)@.contains_key(alias@) ==> tick == 0 && final(rr)@ == old(rr)@,
        old(rr)@.contains_key(alias@) && old(rr)@[alias@] < usize::MAX ==> final(rr)@
            == old(rr)@.insert(alias@, (old(rr)@[alias@] + 1) as usize),
        old(other)@.contains_key(name@) ==> final(other)@ == old(other)@,
        !old(other)@.contains_key(name@) ==> final(other)@ == old(other)@.insert(name@, 0),
{
}

/// What `pick` gives: the weight in which the tick's share of the circle falls,
/// and the last one where nobody weighs anything.
pub proof fn picks_fall_in_proportion(weights: &Vec<usize>, tick: u64, r: usize)
    requires
        call_ensures(pick, (weights, tick), r),
    ensures
        r < weights@.len(),
        total(weights@) > 0 ==> total(weights@.take(r as int)) * 0x1_0000_0000_0000_0000 <= spread(
            tick,
        ) * total(weights@) < total(weights@.take(r + 1)) * 0x1_0000_0000_0000_0000,
        total(weights@) == 0 ==> r == weights@.len() - 1,
{
    if total(weights@) > 0 {
        ticks_point_where_their_share_falls(weights@, tick, r as int);
    }
}

/// What `select_candidate` gives: nobody where there is nobody, and else the
/// one that the alias's tick selects, which moves that alias's counter alone.
pub proof fn selections_move_the_schedule_on<
    'a,
    E: Fn(u64, Double) -> Double,
    S: Fn(Double, Standing) -> usize,
>(
    alias: &str,
    candidates: &'a [ResolvedCandidate],
    tracker: &Tracker,
    rr: &mut RoundRobinState,
    k: Double,
    mode: LatencyMode,
    effective: &E,
    share: &S,
    r: Option<&'a ResolvedCandidate>,
)
    requires
        call_ensures(
            select_candidate::<E, S>,
            (alias, candidates, tracker, rr, k, mode, effective, share),
            r,
        ),
    ensures
        r is None <==> candidates@.len() == 0,
        candidates@.len() == 0 ==> final(rr)@ == old(rr)@,
        candidates@.len() > 0 && old(rr)@.contains_key(alias@) ==> selected(
            candidates@,
            tracker,
            old(rr)@[alias@] as u64,
            k,
            mode,
            effective,
            share,
            *r->0,
        ),
        candidates@.len() > 0 && old(rr)@.contains_key(alias@) && old(rr)@[alias@] < usize::MAX
            ==> final(rr)@ == old(rr)@.insert(alias@, (old(rr)@[alias@] + 1) as usize),
{
}

/// An alias without a counter is always at its first tick.
pub proof fn unregistered_aliases_stay_at_their_first_tick<
    'a,
    E: Fn(u64, Double) -> Double,
    S: Fn(Double, Standing) -> usize,
>(
    alias: &str,
    candidates: &'a [ResolvedCandidate],
    tracker: &Tracker,
    rr: &mut RoundRobinState,
    k: Double,
    mode: LatencyMode,
    effective: &E,
    share: &S,
    c: &'a ResolvedCandidate,
)
    requires
        !rr@.contains_key(alias@),
        call_ensures(
            select_candidate::<E, S>,
            (alias, candidates, tracker, rr, k, mode, effective, share),
            Some(c),
        ),
    ensures
        final(rr)@ == old(rr)@,
        selected(candidates@, tracker, 0, k, mode, effective, share, *c),
{
}

} // verus!
