//! A shared limit on open directory handles.
use vstd::prelude::*;

use crate::runtime::memory;
use crate::runtime::memory::{ByteBudget, PoolView, Reservation};
use crate::scheduler::SubmitError;

verus! {

/// A number of handles that may be open at once.
pub struct HandleBudget {
    pool: ByteBudget,
}

/// The right to one open handle.
pub struct HandlePermit {
    unit: Reservation,
}

impl View for HandleBudget {
    type V = PoolView;

    closed spec fn view(&self) -> PoolView {
        self.pool@
    }
}

impl HandlePermit {
    /// Which of the budget's permits this is.
    pub closed spec fn id(&self) -> int {
        self.unit.id()
    }

    closed spec fn counts_one(&self) -> bool {
        self.unit.size() == 1
    }
}

impl HandleBudget {
    /// The books are in order.
    pub open spec fn wf(&self) -> bool {
        self@.wf()
    }

    /// The permit is one of this budget's and was not given back.
    pub closed spec fn granted(&self, permit: &HandlePermit) -> bool {
        permit.counts_one() && self.pool.holds(&permit.unit)
    }

    /// No handle is open.
    pub fn new(limit: usize) -> (budget: Self)
        ensures
            budget.wf(),
            budget@ == (PoolView {
                limit: limit as nat,
                used: 0,
                peak: 0,
                sizes: Seq::empty(),
            }),
    {
        HandleBudget { pool: ByteBudget::new(limit) }
    }

    /// One more handle, unless the limit is reached.
    pub fn acquire(&mut self) -> (result: Result<HandlePermit, SubmitError>)
        requires
            old(self).wf(),
        ensures
            final(self).wf(),
            result is Ok <==> old(self)@.used < old(self)@.limit,
            match result {
                Ok(permit) => {
                    &&& final(self)@ == old(self)@.reserved(1)
                    &&& final(self).granted(&permit)
                    &&& permit.id() == old(self)@.sizes.len()
                },
                Err(error) => error is ResourceLimit && final(self)@ == old(self)@,
            },
            forall|other: &HandlePermit|
                old(self).granted(other) ==> #[trigger] final(self).granted(other),
    {
        match self.pool.reserve(1) {
            Ok(unit) => Ok(HandlePermit { unit }),
            Err(_) => Err(SubmitError::ResourceLimit),
        }
    }

    /// Gives a permit back.
    pub fn release(&mut self, permit: HandlePermit)
        requires
            old(self).wf(),
            old(self).granted(&permit),
        ensures
            final(self).wf(),
            final(self)@ == old(self)@.resized(permit.id(), 0),
            final(self)@.used == old(self)@.used - 1,
            forall|other: &HandlePermit|
                old(self).granted(other) && other.id() != permit.id()
                    ==> #[trigger] final(self).granted(other),
    {
        proof {
            memory::lemma_total_update(self.pool@.sizes, permit.unit.id(), 0);
        }
        permit.unit.release(&mut self.pool);
    }

    /// How many handles are open.
    pub fn open(&self) -> (open: usize)
        ensures
            open == self@.used,
    {
        self.pool.used()
    }

    /// The most that were open at any time.
    pub fn peak(&self) -> (peak: usize)
        ensures
            peak == self@.peak,
    {
        self.pool.peak()
    }
}

/// Handles are never overdrawn: after any acquisition that was granted the open handles are
/// within the limit, and giving the permit back leaves as many open as before.
pub proof fn handles_are_never_overdrawn(budget: PoolView)
    requires
        budget.wf(),
        budget.used < budget.limit,
    ensures
        budget.reserved(1).used <= budget.limit,
        budget.reserved(1).peak <= budget.limit,
        budget.reserved(1).resized(budget.sizes.len() as int, 0).used == budget.used,
{
    memory::release_undoes_reserve(budget, 1);
}

/// Where jobs get their handles from.
pub trait Handles {
    type Permit;

    fn acquire(&self) -> Result<Self::Permit, SubmitError>;
}

/// Whether this is an answer that asking for a handle gives. Others may open and close handles at
/// any moment, so one answer may differ from the next.
pub open spec fn answers<H: Handles>(handles: &H, answer: Result<H::Permit, SubmitError>) -> bool {
    call_ensures(H::acquire, (handles,), answer)
}

} // verus!
