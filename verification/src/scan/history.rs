//! What holds of the work of a scan through any history of calls of its service.
use vstd::prelude::*;

use crate::domain::index::IndexView;
use crate::domain::model::{IssueView, IssuesView, Phase, WaitReason, WorkView};
use crate::scan::aggregate::ObservationView;
use crate::scan::service::{UsageDesk, UsageError, UsageServiceView};
use crate::scheduler::{PendingView, SchedulerView, Seat};

verus! {

/// A call of a service, or what others do meanwhile to what it shares.
pub enum UsageCall<J> {
    Start {
        root: ObservationView,
        number: Option<u64>,
        at: Seq<char>,
        late: Seq<char>,
        seat: Seat<J>,
    },
    Work { id: Seq<char>, told: bool },
    Report {
        counts: Option<(u64, u64, IssuesView)>,
        failure: Option<IssueView>,
        terminal: Option<Phase>,
        then: Seq<char>,
    },
    Cancel { id: Seq<char> },
    Close,
    Meanwhile { scheduler: SchedulerView<J>, gone: Seq<PendingView<J>>, index: IndexView },
}

impl<J> UsageDesk<J> {
    /// The desk after a call.
    pub open spec fn after(self, call: UsageCall<J>) -> UsageDesk<J> {
        match call {
            UsageCall::Start { root, number, at, late, seat } => self.start_outcome(
                root,
                number,
                at,
                late,
                seat,
            ).desk,
            UsageCall::Work { id, told } => if self.service.work_refusal(id) is Some {
                self
            } else {
                UsageDesk { service: self.service.synchronized(self.scheduler, told), ..self }
            },
            UsageCall::Report { counts, failure, terminal, then } => UsageDesk {
                service: self.service.reported(counts, failure, terminal, then),
                ..self
            },
            UsageCall::Cancel { id } => self.cancelled(id),
            UsageCall::Close => self.shut(),
            UsageCall::Meanwhile { scheduler, gone, index } => UsageDesk {
                scheduler,
                gone,
                index,
                ..self
            },
        }
    }

    /// The desk after some calls, one after the other.
    pub open spec fn after_all(self, calls: Seq<UsageCall<J>>) -> UsageDesk<J>
        decreases calls.len(),
    {
        if calls.len() == 0 {
            self
        } else {
            self.after_all(calls.drop_last()).after(calls.last())
        }
    }
}

impl UsageServiceView {
    /// Whether this is a later state of a service with this work: it was closed, or it still has
    /// the work, whose sequence has not gone back and which stays as it was once it has ended. As
    /// long as there is another number for it, every change gives the work another sequence. A
    /// cancellation that was asked for stays asked for.
    pub open spec fn carries_on(self, work: WorkView, cancelled: bool) -> bool {
        ||| self.closed
        ||| {
            &&& self.work is Some
            &&& self.work->0.task_id == work.task_id
            &&& self.work->0.sequence >= work.sequence
            &&& work.phase.is_terminal() ==> self.work->0 == work
            &&& self.work->0.sequence == work.sequence && work.sequence < u64::MAX
                ==> self.work->0 == work
            &&& cancelled ==> self.cancel_requested
        }
    }
}

#[verifier::spinoff_prover]
#[verifier::rlimit(40)]
proof fn lemma_carries_on<J>(desk: UsageDesk<J>, call: UsageCall<J>, work: WorkView, cancelled: bool)
    requires
        desk.service.carries_on(work, cancelled),
    ensures
        desk.after(call).service.carries_on(work, cancelled),
{
}

proof fn lemma_carries_on_all<J>(
    desk: UsageDesk<J>,
    calls: Seq<UsageCall<J>>,
    work: WorkView,
    cancelled: bool,
)
    requires
        desk.service.carries_on(work, cancelled),
    ensures
        desk.after_all(calls).service.carries_on(work, cancelled),
    decreases calls.len(),
{
    if calls.len() > 0 {
        lemma_carries_on_all(desk, calls.drop_last(), work, cancelled);
        lemma_carries_on(desk.after_all(calls.drop_last()), calls.last(), work, cancelled);
    }
}

/// The work that a service shows never goes back: whatever is called afterwards, until the service
/// is closed it shows the same task with at least the same sequence, work that has ended stays as
/// it was, and so does work that shows the same sequence, unless that is the last number there is.
pub proof fn work_never_goes_back<J>(desk: UsageDesk<J>, calls: Seq<UsageCall<J>>)
    requires
        desk.service.work is Some,
    ensures
        desk.after_all(calls).service.carries_on(desk.service.work->0, false),
{
    lemma_carries_on_all(desk, calls, desk.service.work->0, false);
}

/// Two reads of the work of a scan agree, whatever is called between them: the second shows at
/// least the sequence of the first. Where it shows the same, and there is another number, and
/// also where the first has ended, both show the same work. Under another id there is none to
/// read, and after the service was closed nothing is told.
pub proof fn reads_of_work_agree<J>(
    desk: UsageDesk<J>,
    id: Seq<char>,
    told: bool,
    calls: Seq<UsageCall<J>>,
    told_later: bool,
    other: Seq<char>,
)
    requires
        desk.service.work_refusal(id) is None,
    ensures
        ({
            let first = desk.after(UsageCall::Work { id, told });
            let later = first.after_all(calls);
            let second = later.after(UsageCall::Work { id, told: told_later });
            let shown = first.service.work->0;
            let again = second.service.work->0;
            if later.service.closed {
                later.service.work_refusal(other) == Some(UsageError::SessionClosed)
            } else {
                &&& later.service.work_refusal(id) is None
                &&& other != id ==> later.service.work_refusal(other) == Some(
                    UsageError::TaskExpired,
                )
                &&& shown.sequence <= again.sequence
                &&& shown.sequence == again.sequence && shown.sequence < u64::MAX ==> again
                    == shown
                &&& shown.phase.is_terminal() ==> again == shown
            }
        }),
{
    let first = desk.after(UsageCall::Work { id, told });
    let shown = first.service.work->0;
    assert(first.service.carries_on(shown, false));
    lemma_carries_on_all(first, calls, shown, false);
    let later = first.after_all(calls);
    lemma_carries_on(later, UsageCall::Work { id, told: told_later }, shown, false);
}

/// A scan that was cancelled stays cancelled, though its task may be in the middle of a turn:
/// whatever is called afterwards, until the service is closed every report of work that has not
/// ended says that it drains.
pub proof fn a_cancelled_scan_drains<J>(
    desk: UsageDesk<J>,
    id: Seq<char>,
    calls: Seq<UsageCall<J>>,
    counts: Option<(u64, u64, IssuesView)>,
    failure: Option<IssueView>,
    then: Seq<char>,
)
    requires
        desk.service.work_refusal(id) is None,
        !desk.service.work->0.phase.is_terminal(),
        desk.service.ticket is Some,
        desk.cancelled(id).after_all(calls).service.takes_reports(),
    ensures
        desk.cancelled(id).after_all(calls).service.reported(
            counts,
            failure,
            None,
            then,
        ).work->0.wait_reason == Some(WaitReason::Draining),
{
    let first = desk.cancelled(id);
    lemma_carries_on_all(first, calls, first.service.work->0, true);
}

/// A closed service stays closed and shows no work, whatever is called afterwards.
pub proof fn a_closed_service_stays_closed<J>(desk: UsageDesk<J>, calls: Seq<UsageCall<J>>)
    ensures
        desk.shut().after_all(calls).service.closed,
        desk.shut().after_all(calls).service.work is None,
    decreases calls.len(),
{
    if calls.len() > 0 {
        a_closed_service_stays_closed(desk, calls.drop_last());
    }
}

} // verus!
