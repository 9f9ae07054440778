//! The memory that request bodies may take, counted in permits of one
//! kilobyte by a semaphore of `tokio`.
use vstd::prelude::*;

verus! {

/// The counting semaphore of `tokio`.
#[verifier::external_type_specification]
#[verifier::external_body]
pub struct ExSemaphore(tokio::sync::Semaphore);

/// The permits a semaphore has left.
pub uninterp spec fn free_permits(s: tokio::sync::Semaphore) -> nat;

/// Whether a semaphore still hands out permits: nobody has closed it.
pub uninterp spec fn is_open(s: tokio::sync::Semaphore) -> bool;

/// The most permits a semaphore can hold.
pub open spec fn permit_limit() -> int {
    usize::MAX as int / 8
}

/// `Semaphore::MAX_PERMITS`. Claimed: it is an eighth of the largest `usize`.
#[verifier::external_body]
fn max_permits() -> (r: usize)
    ensures
        r == permit_limit(),
{
    tokio::sync::Semaphore::MAX_PERMITS
}

/// Makes a semaphore by `Semaphore::new`, which panics beyond the limit.
/// Claimed: it is open and has that many permits.
#[verifier::external_body]
fn make_semaphore(permits: usize) -> (r: tokio::sync::Semaphore)
    requires
        permits <= permit_limit(),
    ensures
        free_permits(r) == permits,
        is_open(r),
{
    tokio::sync::Semaphore::new(permits)
}

/// Takes permits by `Semaphore::try_acquire_many` and keeps them taken by
/// `SemaphorePermit::forget`; the call panics beyond the limit. Claimed: it
/// succeeds exactly when that many are left, and then there are that many
/// fewer; otherwise nothing changes.
#[verifier::external_body]
fn take_permits(s: &mut tokio::sync::Semaphore, n: u32) -> (r: bool)
    requires
        is_open(*old(s)),
        n <= permit_limit(),
    ensures
        r == (n <= free_permits(*old(s))),
        free_permits(*final(s)) == if r {
            free_permits(*old(s)) - n
        } else {
            free_permits(*old(s)) as int
        },
        is_open(*final(s)),
{
    match s.try_acquire_many(n) {
        Ok(permit) => {
            permit.forget();
            true
        },
        Err(_) => false,
    }
}

/// Gives permits back by `Semaphore::add_permits`, which panics beyond the
/// limit. Claimed: there are that many more.
#[verifier::external_body]
fn give_permits(s: &mut tokio::sync::Semaphore, n: usize)
    requires
        is_open(*old(s)),
        free_permits(*old(s)) + n <= permit_limit(),
    ensures
        free_permits(*final(s)) == free_permits(*old(s)) + n,
        is_open(*final(s)),
{
    s.add_permits(n)
}

/// `Semaphore::available_permits`. Claimed: it is the number of permits left.
#[verifier::external_body]
fn count_permits(s: &tokio::sync::Semaphore) -> (r: usize)
    ensures
        r == free_permits(*s),
{
    s.available_permits()
}

/// The permits a body of that many bytes takes: one per kilobyte begun, at
/// least one, at most what one request can ask for.
pub open spec fn permits_for(bytes: int) -> int {
    let kb = (bytes + 1023) / 1024;
    if kb < 1 {
        1
    } else if kb > u32::MAX {
        u32::MAX as int
    } else {
        kb
    }
}

/// Caps how much memory all in-flight requests may spend buffering bodies,
/// and the size of any single body. The one place that decides admission:
/// too big for the cap is 413, momentarily over budget is 429.
#[derive(Debug)]
pub struct BufferBudget {
    semaphore: tokio::sync::Semaphore,
    permits: usize,
    max_body_bytes: usize,
}

impl BufferBudget {
    /// The permits that are not in use.
    pub closed spec fn free(&self) -> nat {
        free_permits(self.semaphore)
    }

    /// All permits, in use or not.
    pub closed spec fn total(&self) -> nat {
        self.permits as nat
    }

    /// The largest body that is admitted.
    pub closed spec fn cap(&self) -> nat {
        self.max_body_bytes as nat
    }

    /// There is at least one permit, no more are free than there are, and a
    /// body within the cap fits an idle budget.
    pub closed spec fn well_formed(&self) -> bool {
        &&& is_open(self.semaphore)
        &&& 1 <= self.permits <= permit_limit()
        &&& free_permits(self.semaphore) <= self.permits
        &&& self.max_body_bytes <= self.permits * 1024
    }

    /// A budget of so many bytes (at least one kilobyte), none of it in use.
    /// The cap on a single body is never above the budget.
    pub fn new(budget_bytes: usize, max_body_bytes: usize) -> (r: Self)
        ensures
            r.well_formed(),
            r.total() == if budget_bytes / 1024 < 1 {
                1
            } else if budget_bytes / 1024 > permit_limit() {
                permit_limit()
            } else {
                budget_bytes as int / 1024
            },
            r.free() == r.total(),
            r.cap() == if max_body_bytes < r.total() * 1024 {
                max_body_bytes as nat
            } else {
                r.total() * 1024
            },
    {
        let limit: usize = max_permits();
        let kb: usize = budget_bytes / 1024;
        let permits: usize = if kb < 1 {
            1
        } else if kb > limit {
            limit
        } else {
            kb
        };
        let whole: usize = permits * 1024;
        let max_body_bytes: usize = if max_body_bytes < whole {
            max_body_bytes
        } else {
            whole
        };
        BufferBudget { semaphore: make_semaphore(permits), permits, max_body_bytes }
    }

    /// Reserve permits for `bytes` of buffer (1 KB granularity, at least
    /// one), or `None` if the budget is exhausted. The result is what has to
    /// be released again.
    pub fn reserve(&mut self, bytes: usize) -> (r: Option<u32>)
        requires
            old(self).well_formed(),
        ensures
            final(self).well_formed(),
            final(self).total() == old(self).total(),
            final(self).cap() == old(self).cap(),
            match r {
                Some(n) => {
                    &&& n == permits_for(bytes as int)
                    &&& n <= old(self).free()
                    &&& final(self).free() == old(self).free() - n
                    &&& final(self).free() + n <= final(self).total()
                },
                None => {
                    &&& permits_for(bytes as int) > old(self).free()
                    &&& final(self).free() == old(self).free()
                },
            },
    {
        let begun: usize = bytes / 1024 + (if bytes % 1024 == 0 {
            0
        } else {
            1
        });
        assert(begun == (bytes + 1023) / 1024);
        let want: u32 = if begun < 1 {
            1
        } else if begun as u64 > u32::MAX as u64 {
            u32::MAX
        } else {
            begun as u32
        };
        assert(want <= permit_limit());
        if take_permits(&mut self.semaphore, want) {
            Some(want)
        } else {
            None
        }
    }

    /// Gives reserved permits back.
    pub fn release(&mut self, permits: u32)
        requires
            old(self).well_formed(),
            old(self).free() + permits <= old(self).total(),
        ensures
            final(self).well_formed(),
            final(self).total() == old(self).total(),
            final(self).cap() == old(self).cap(),
            final(self).free() == old(self).free() + permits,
    {
        give_permits(&mut self.semaphore, permits as usize);
    }

    /// The budget's total size in KB-permits.
    pub fn permits(&self) -> (r: usize)
        ensures
            r == self.total(),
    {
        self.permits
    }

    /// The permits that are not in use.
    pub fn available_permits(&self) -> (r: usize)
        ensures
            r == self.free(),
    {
        count_permits(&self.semaphore)
    }

    /// The largest body that is admitted.
    pub fn max_body_bytes(&self) -> (r: usize)
        ensures
            r == self.cap(),
    {
        self.max_body_bytes
    }
}

/// A body within the cap can always be admitted once the budget is idle: no
/// request is told to retry in vain.
pub proof fn within_the_cap_can_ever_fit(budget: BufferBudget, bytes: int)
    requires
        budget.well_formed(),
        0 <= bytes <= budget.cap(),
    ensures
        permits_for(bytes) <= budget.total(),
{
}

/// The bytes of some bodies together.
pub open spec fn bytes_held(bodies: Seq<int>) -> int
    decreases bodies.len(),
{
    if bodies.len() == 0 {
        0
    } else {
        bytes_held(bodies.drop_last()) + bodies.last()
    }
}

/// The permits some bodies take together.
pub open spec fn permits_held(bodies: Seq<int>) -> int
    decreases bodies.len(),
{
    if bodies.len() == 0 {
        0
    } else {
        permits_held(bodies.drop_last()) + permits_for(bodies.last())
    }
}

/// A budget has at least one permit, no more free than there are, and room
/// for a body of the largest size when it is idle.
pub proof fn well_formed_budgets_have_room(budget: BufferBudget)
    requires
        budget.well_formed(),
    ensures
        1 <= budget.total(),
        budget.free() <= budget.total(),
        budget.cap() <= budget.total() * 1024,
{
}

/// Whether the permits in use are those that these bodies take.
pub open spec fn holds(budget: BufferBudget, bodies: Seq<int>) -> bool {
    budget.free() + permits_held(bodies) == budget.total()
}

/// Memory is bounded: the bodies that hold a budget's permits take no more
/// bytes than the budget. (One reservation covers up to four terabytes.)
pub proof fn buffered_bytes_are_bounded(budget: BufferBudget, bodies: Seq<int>)
    requires
        holds(budget, bodies),
        forall|i: int| 0 <= i < bodies.len() ==> 0 <= #[trigger] bodies[i] <= u32::MAX * 1024,
    ensures
        bytes_held(bodies) <= (budget.total() - budget.free()) * 1024,
        bytes_held(bodies) <= budget.total() * 1024,
{
    lemma_bytes_and_permits(bodies);
}

proof fn lemma_bytes_and_permits(bodies: Seq<int>)
    requires
        forall|i: int| 0 <= i < bodies.len() ==> 0 <= #[trigger] bodies[i] <= u32::MAX * 1024,
    ensures
        bytes_held(bodies) <= permits_held(bodies) * 1024,
    decreases bodies.len(),
{
    if bodies.len() > 0 {
        let init = bodies.drop_last();
        let last = bodies[bodies.len() - 1];
        assert(0 <= last <= u32::MAX * 1024);
        assert forall|i: int| 0 <= i < init.len() implies 0 <= #[trigger] init[i] <= u32::MAX
            * 1024 by {
            assert(init[i] == bodies[i]);
        }
        lemma_bytes_and_permits(init);
    }
}

proof fn lemma_permits_without(bodies: Seq<int>, i: int)
    requires
        0 <= i < bodies.len(),
    ensures
        permits_held(bodies.remove(i)) == permits_held(bodies) - permits_for(bodies[i]),
        permits_held(bodies.remove(i)) >= 0,
    decreases bodies.len(),
{
    let init = bodies.drop_last();
    if i == init.len() {
        assert(bodies.remove(i) =~= init);
        if i > 0 {
            lemma_permits_without(init, 0);
        }
    } else {
        lemma_permits_without(init, i);
        assert(bodies.remove(i).drop_last() =~= init.remove(i));
        assert(bodies.remove(i).last() == bodies.last());
    }
}

/// An idle budget holds no bodies; reserving for one more leaves the budget
/// with it, and releasing what any of them took leaves it without. What a
/// body took can always be released.
pub proof fn reservations_balance(
    before: BufferBudget,
    after: BufferBudget,
    bodies: Seq<int>,
    bytes: int,
    i: int,
)
    requires
        holds(before, bodies),
        after.total() == before.total(),
    ensures
        before.free() == before.total() ==> holds(before, seq![]),
        after.free() == before.free() - permits_for(bytes) ==> holds(after, bodies.push(bytes)),
        0 <= i < bodies.len() ==> before.free() + permits_for(bodies[i]) <= before.total(),
        0 <= i < bodies.len() && after.free() == before.free() + permits_for(bodies[i]) ==> holds(
            after,
            bodies.remove(i),
        ),
{
    assert(bodies.push(bytes).drop_last() =~= bodies);
    if 0 <= i < bodies.len() {
        lemma_permits_without(bodies, i);
    }
}

/// What was reserved can be released, and the budget is then as free as it
/// was, whatever else is held.
pub proof fn reserving_and_releasing_cancel(
    before: BufferBudget,
    held: BufferBudget,
    after: BufferBudget,
    n: u32,
)
    requires
        before.well_formed(),
        n <= before.free(),
        held.total() == before.total(),
        held.free() == before.free() - n,
        after.free() == held.free() + n,
    ensures
        held.free() + n <= held.total(),
        after.free() == before.free(),
{
}

/// A reservation is the least number of kilobytes that holds the bytes, but
/// one at least; beyond what one request can ask for it is that.
pub proof fn reservations_are_whole_kilobytes(bytes: int)
    requires
        0 <= bytes,
    ensures
        permits_for(0) == 1,
        0 < bytes <= 0xFFFF_FFFF * 1024 ==> (permits_for(bytes) - 1) * 1024 < bytes
            <= permits_for(bytes) * 1024,
        bytes > 0xFFFF_FFFF * 1024 ==> permits_for(bytes) == 0xFFFF_FFFF,
{
}

/// What a budget gives: as many permits as it has kilobytes, but one at least
/// and no more than can be counted, all free; a cap that is never above it.
pub proof fn budgets_are_made_of_kilobytes(
    budget_bytes: usize,
    max_body_bytes: usize,
    r: BufferBudget,
)
    requires
        call_ensures(BufferBudget::new, (budget_bytes, max_body_bytes), r),
    ensures
        r.free() == r.total(),
        budget_bytes < 1024 ==> r.total() == 1,
        1024 <= budget_bytes && r.total() < permit_limit() ==> r.total() * 1024 <= budget_bytes
            < (r.total() + 1) * 1024,
        r.cap() <= max_body_bytes && r.cap() <= r.total() * 1024,
        r.cap() == max_body_bytes || r.cap() == r.total() * 1024,
{
}

/// What reserving and releasing give: a reservation succeeds exactly where its
/// kilobytes are free, and takes them; a release gives back what it is given.
pub proof fn reservations_take_and_releases_give_back(
    budget: &mut BufferBudget,
    bytes: usize,
    r: Option<u32>,
    other: &mut BufferBudget,
    n: u32,
)
    requires
        call_ensures(BufferBudget::reserve, (budget, bytes), r),
        call_ensures(BufferBudget::release, (other, n), ()),
    ensures
        r is Some <==> permits_for(bytes as int) <= old(budget).free(),
        r matches Some(k) ==> k == permits_for(bytes as int) && final(budget).free() + k
            == old(budget).free(),
        r is None ==> final(budget).free() == old(budget).free(),
        final(budget).total() == old(budget).total() && final(budget).cap() == old(budget).cap(),
        final(other).free() == old(other).free() + n,
        final(other).total() == old(other).total() && final(other).cap() == old(other).cap(),
{
}

/// What a budget says of itself.
pub proof fn budgets_tell_their_permits(
    budget: &BufferBudget,
    all: usize,
    free: usize,
    cap: usize,
)
    requires
        call_ensures(BufferBudget::permits, (budget,), all),
        call_ensures(BufferBudget::available_permits, (budget,), free),
        call_ensures(BufferBudget::max_body_bytes, (budget,), cap),
    ensures
        all == budget.total() && free == budget.free() && cap == budget.cap(),
{
}

} // verus!
