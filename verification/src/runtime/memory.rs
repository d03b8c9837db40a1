//! Shared managed-data reservations. These are not measurements of allocator RSS.
use vstd::prelude::*;

verus! {

/// A pool has no room for a request.
#[derive(Debug, Clone, Copy, PartialEq, Eq, Structural)]
pub struct ResourceLimit;

/// The sum of all reserved sizes.
pub open spec fn total(sizes: Seq<nat>) -> nat
    decreases sizes.len(),
{
    if sizes.len() == 0 {
        0
    } else {
        total(sizes.drop_last()) + sizes.last()
    }
}

/// One more reservation adds its size to the sum.
pub proof fn lemma_total_push(sizes: Seq<nat>, size: nat)
    ensures
        total(sizes.push(size)) == total(sizes) + size,
{
    assert(sizes.push(size).drop_last() =~= sizes);
}

/// Changing one reservation changes the sum by the difference.
pub proof fn lemma_total_update(sizes: Seq<nat>, at: int, size: nat)
    requires
        0 <= at < sizes.len(),
    ensures
        total(sizes.update(at, size)) == total(sizes) - sizes[at] + size,
        sizes[at] <= total(sizes),
    decreases sizes.len(),
{
    if at == sizes.len() - 1 {
        assert(sizes.update(at, size).drop_last() =~= sizes.drop_last());
    } else {
        lemma_total_update(sizes.drop_last(), at, size);
        assert(sizes.update(at, size).drop_last() =~= sizes.drop_last().update(at, size));
    }
}

/// A pool of bytes: its limit, what is reserved now and at most so far, and the size of every
/// reservation that was ever made from it.
#[verifier::ext_equal]
pub struct PoolView {
    pub limit: nat,
    pub used: nat,
    pub peak: nat,
    pub sizes: Seq<nat>,
}

impl PoolView {
    /// What is used is exactly what the reservations hold, and never more than the limit.
    pub open spec fn wf(self) -> bool {
        &&& self.used == total(self.sizes)
        &&& self.used <= self.peak
        &&& self.peak <= self.limit
        &&& self.limit <= usize::MAX
    }

    /// Whether a reservation of `old` bytes can become one of `new` bytes.
    pub open spec fn fits(self, old: nat, new: nat) -> bool {
        new <= old || self.used - old + new <= self.limit
    }

    /// Whether there is room for `amount` more.
    pub open spec fn affords(self, amount: nat) -> bool {
        self.used + amount <= self.limit
    }

    /// The pool after reservation `id` became `bytes` large.
    pub open spec fn resized(self, id: int, bytes: nat) -> PoolView {
        let used = (self.used - self.sizes[id] + bytes) as nat;
        PoolView {
            limit: self.limit,
            used,
            peak: if used > self.peak { used } else { self.peak },
            sizes: self.sizes.update(id, bytes),
        }
    }

    /// The pool after one more reservation.
    pub open spec fn reserved(self, bytes: nat) -> PoolView {
        let used = self.used + bytes;
        PoolView {
            limit: self.limit,
            used,
            peak: if used > self.peak { used } else { self.peak },
            sizes: self.sizes.push(bytes),
        }
    }
}

/// A pool of bytes with a fixed limit.
pub struct ByteBudget {
    limit: usize,
    used: usize,
    peak: usize,
    sizes: Ghost<Seq<nat>>,
}

/// A number of bytes that one owner holds in a pool.
pub struct Reservation {
    bytes: usize,
    id: Ghost<int>,
}

impl View for ByteBudget {
    type V = PoolView;

    closed spec fn view(&self) -> PoolView {
        PoolView {
            limit: self.limit as nat,
            used: self.used as nat,
            peak: self.peak as nat,
            sizes: self.sizes@,
        }
    }
}

impl ByteBudget {
    /// The pool's books are in order.
    pub open spec fn wf(&self) -> bool {
        self@.wf()
    }

    /// The reservation is one of this pool's, with the size that the pool has on its books.
    pub open spec fn holds(&self, reservation: &Reservation) -> bool {
        &&& 0 <= reservation.id() < self@.sizes.len()
        &&& self@.sizes[reservation.id()] == reservation.size()
    }

    /// An empty pool.
    pub fn new(limit: usize) -> (budget: Self)
        ensures
            budget.wf(),
            budget@ == (PoolView {
                limit: limit as nat,
                used: 0,
                peak: 0,
                sizes: Seq::empty(),
            }),
    {
        ByteBudget { limit, used: 0, peak: 0, sizes: Ghost(Seq::empty()) }
    }

    /// The most that can be reserved.
    pub fn limit(&self) -> (limit: usize)
        ensures
            limit == self@.limit,
    {
        self.limit
    }

    /// What is reserved now.
    pub fn used(&self) -> (used: usize)
        ensures
            used == self@.used,
    {
        self.used
    }

    /// The most that was reserved at any time.
    pub fn peak(&self) -> (peak: usize)
        ensures
            peak == self@.peak,
    {
        self.peak
    }

    /// Reserves `bytes`, unless they would take the pool over its limit.
    pub fn reserve(&mut self, bytes: usize) -> (result: Result<Reservation, ResourceLimit>)
        requires
            old(self).wf(),
        ensures
            final(self).wf(),
            result is Ok <==> old(self)@.used + bytes <= old(self)@.limit,
            match result {
                Ok(reservation) => {
                    &&& final(self)@ == old(self)@.reserved(bytes as nat)
                    &&& final(self).holds(&reservation)
                    &&& reservation.size() == bytes
                    &&& reservation.id() == old(self)@.sizes.len()
                },
                Err(_) => final(self)@ == old(self)@,
            },
    {
        if bytes > self.limit - self.used {
            return Err(ResourceLimit);
        }
        proof {
            lemma_total_push(self.sizes@, bytes as nat);
        }
        let ghost id = self.sizes@.len() as int;
        self.used = self.used + bytes;
        if self.used > self.peak {
            self.peak = self.used;
        }
        self.sizes = Ghost(self.sizes@.push(bytes as nat));
        Ok(Reservation { bytes, id: Ghost(id) })
    }
}

impl Reservation {
    /// The size on the owner's side.
    pub closed spec fn size(&self) -> nat {
        self.bytes as nat
    }

    /// Which of the pool's reservations this is.
    pub closed spec fn id(&self) -> int {
        self.id@
    }

    /// How many bytes are held.
    pub fn bytes(&self) -> (bytes: usize)
        ensures
            bytes == self.size(),
    {
        self.bytes
    }

    /// Grows or shrinks the reservation. When the pool has no room for the growth, nothing
    /// changes on either side.
    pub fn resize(&mut self, budget: &mut ByteBudget, bytes: usize) -> (result: Result<
        (),
        ResourceLimit,
    >)
        requires
            old(budget).wf(),
            old(budget).holds(old(self)),
        ensures
            final(budget).wf(),
            final(budget).holds(final(self)),
            final(self).id() == old(self).id(),
            result is Ok <==> old(budget)@.fits(old(self).size(), bytes as nat),
            match result {
                Ok(_) => {
                    &&& final(self).size() == bytes
                    &&& final(budget)@ == old(budget)@.resized(old(self).id(), bytes as nat)
                },
                Err(_) => {
                    &&& final(self).size() == old(self).size()
                    &&& final(budget)@ == old(budget)@
                },
            },
    {
        proof {
            lemma_total_update(budget.sizes@, self.id@, bytes as nat);
        }
        if bytes > self.bytes {
            let additional: usize = bytes - self.bytes;
            if additional > budget.limit - budget.used {
                return Err(ResourceLimit);
            }
            budget.used = budget.used + additional;
            if budget.used > budget.peak {
                budget.peak = budget.used;
            }
        } else {
            budget.used = budget.used - (self.bytes - bytes);
        }
        budget.sizes = Ghost(budget.sizes@.update(self.id@, bytes as nat));
        self.bytes = bytes;
        Ok(())
    }

    /// Gives the whole reservation back.
    pub fn release(self, budget: &mut ByteBudget)
        requires
            old(budget).wf(),
            old(budget).holds(&self),
        ensures
            final(budget).wf(),
            final(budget)@ == old(budget)@.resized(self.id(), 0),
    {
        proof {
            lemma_total_update(budget.sizes@, self.id@, 0);
        }
        budget.used = budget.used - self.bytes;
        budget.sizes = Ghost(budget.sizes@.update(self.id@, 0));
    }
}

/// Resizing one reservation leaves every other reservation of the pool as it was.
pub proof fn resizing_leaves_other_reservations(
    pool: PoolView,
    id: int,
    bytes: nat,
    other: int,
)
    requires
        pool.wf(),
        0 <= id < pool.sizes.len(),
        0 <= other < pool.sizes.len(),
        other != id,
    ensures
        pool.resized(id, bytes).sizes[other] == pool.sizes[other],
{
}

/// Shrinking a reservation first makes no difference to a resize.
pub proof fn shrinking_first_makes_no_difference(pool: PoolView, id: int, first: nat, bytes: nat)
    requires
        pool.wf(),
        0 <= id < pool.sizes.len(),
        first <= pool.sizes[id],
    ensures
        pool.resized(id, first).resized(id, bytes) == pool.resized(id, bytes),
        pool.resized(id, pool.sizes[id]) == pool,
{
    lemma_total_update(pool.sizes, id, first);
    assert(pool.resized(id, first).resized(id, bytes) =~= pool.resized(id, bytes));
    assert(pool.resized(id, pool.sizes[id]) =~= pool);
}

/// A reservation that is made and given back leaves the pool with what it had in use.
pub proof fn release_undoes_reserve(pool: PoolView, bytes: nat)
    requires
        pool.wf(),
        pool.used + bytes <= pool.limit,
    ensures
        pool.reserved(bytes).wf(),
        pool.reserved(bytes).resized(pool.sizes.len() as int, 0).wf(),
        pool.reserved(bytes).resized(pool.sizes.len() as int, 0).used == pool.used,
{
    lemma_total_push(pool.sizes, bytes);
    lemma_total_update(pool.reserved(bytes).sizes, pool.sizes.len() as int, 0);
}

/// However many owners reserve from one pool, together they never hold more than its limit.
pub proof fn pool_is_never_overbooked(pool: PoolView, sizes: Seq<nat>)
    requires
        pool.wf(),
        sizes == pool.sizes,
    ensures
        total(sizes) <= pool.limit,
        forall|i: int| 0 <= i < sizes.len() ==> #[trigger] sizes[i] <= pool.limit,
{
    assert forall|i: int| 0 <= i < sizes.len() implies #[trigger] sizes[i] <= pool.limit by {
        lemma_total_update(sizes, i, 0);
    }
}

/// The application's five pools.
pub struct ManagedBudgets {
    pub background_index: ByteBudget,
    pub foreground_index: ByteBudget,
    pub listings: ByteBudget,
    pub hardlinks: ByteBudget,
    pub work: ByteBudget,
}

/// The size of one mebibyte.
pub const MIB: usize = 1_048_576;

impl Default for ManagedBudgets {
    fn default() -> (budgets: Self)
        ensures
            budgets.wf(),
            budgets.background_index@.limit == 48 * MIB,
            budgets.foreground_index@.limit == 16 * MIB,
            budgets.listings@.limit == 48 * MIB,
            budgets.hardlinks@.limit == 12 * MIB,
            budgets.work@.limit == 4 * MIB,
            budgets.limits() == 128 * MIB,
            budgets.in_use() == 0,
    {
        ManagedBudgets {
            background_index: ByteBudget::new(48 * MIB),
            foreground_index: ByteBudget::new(16 * MIB),
            listings: ByteBudget::new(48 * MIB),
            hardlinks: ByteBudget::new(12 * MIB),
            work: ByteBudget::new(4 * MIB),
        }
    }
}

impl ManagedBudgets {
    /// Every pool's books are in order.
    pub open spec fn wf(&self) -> bool {
        &&& self.background_index.wf()
        &&& self.foreground_index.wf()
        &&& self.listings.wf()
        &&& self.hardlinks.wf()
        &&& self.work.wf()
    }

    /// The sum of the five limits.
    pub open spec fn limits(&self) -> nat {
        self.background_index@.limit + self.foreground_index@.limit + self.listings@.limit
            + self.hardlinks@.limit + self.work@.limit
    }

    /// The sum of what is used in the five pools.
    pub open spec fn in_use(&self) -> nat {
        self.background_index@.used + self.foreground_index@.used + self.listings@.used
            + self.hardlinks@.used + self.work@.used
    }

    /// What all pools together have in use.
    pub fn used(&self) -> (used: usize)
        requires
            self.in_use() <= usize::MAX,
        ensures
            used == self.in_use(),
    {
        self.background_index.used() + self.foreground_index.used() + self.listings.used()
            + self.hardlinks.used() + self.work.used()
    }
}

} // verus!
