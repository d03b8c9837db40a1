//! One usage task of one generation, on the shared background lane.
use vstd::prelude::*;

use crate::domain::controller;
use crate::domain::controller::{Scope, ScopeView};
use crate::domain::index::{DirectoryIndex, IndexError, IndexPools, IndexView};
use crate::domain::model;
use crate::domain::model::{
    Bytes, DirectoryUsage, EventKind, FsIssue, IssueScope, IssueView, Issues, IssuesView, Kind,
    Measure, MeasureView, Operation, Phase, Reason, ScanState, UsageView, Value, WaitReason,
    WorkRecord, WorkView,
};
use crate::domain::wire;
use crate::domain::wire::encode_usages;
use crate::listing::cache;
use crate::listing::service;
use crate::listing::service::shown_wait;
use crate::runtime::clock;
use crate::runtime::clock::{Clock, TimeView};
use crate::runtime::events;
use crate::runtime::events::{EventSink, TaskEvents, TaskEventsView};
use crate::runtime::memory::PoolView;
use crate::scan::aggregate::{holds_reason, ObservationView};
use crate::scan::usage::Observation;
use crate::scheduler;
use crate::scheduler::{
    Lane, Pending, PendingView, Scheduler, SchedulerView, Seat, Status, Ticket, TicketView,
};
use crate::text;
use crate::text::{byte_len, numeral, same_bytes, same_text};

verus! {

/// Why a request about usage was refused.
#[derive(Debug, Clone, Copy, PartialEq, Eq, Structural)]
pub enum UsageError {
    InvalidArgument,
    SessionClosed,
    TaskExpired,
    EntryExpired,
    ResourceLimit,
}

/// What became of a cancellation.
#[derive(Debug, Clone, Copy, PartialEq, Eq, Structural)]
pub enum CancelStatus {
    Accepted,
    AlreadyTerminal,
}

/// The issue of a scan as a whole.
pub open spec fn scan_issue(code: Seq<char>) -> IssueView {
    IssueView {
        code,
        operation: "scanUsage"@,
        scope: IssueScope::Root,
        entry_id: None,
        native_code: None,
    }
}

pub(crate) fn issue(code: &str) -> (issue: FsIssue)
    ensures
        issue@ == scan_issue(code@),
{
    FsIssue {
        code: code.to_owned(),
        operation: "scanUsage".to_owned(),
        scope: IssueScope::Root,
        entry_id: None,
        native_code: None,
    }
}

/// The usage of a directory of which nothing was measured.
pub open spec fn unknown_usage(id: Seq<char>, at: Seq<char>) -> UsageView {
    UsageView {
        directory_id: id,
        usage_revision: 0,
        scan_state: ScanState::NotRequested,
        logical: MeasureView::Unknown,
        allocated: MeasureView::Unknown,
        observed_at: at,
    }
}

/// The usage of a directory of which nothing was measured.
pub fn unknown(id: &str, now: &str) -> (usage: DirectoryUsage)
    ensures
        usage@ == unknown_usage(id@, now@),
{
    DirectoryUsage {
        directory_id: id.to_owned(),
        usage_revision: 0,
        scan_state: ScanState::NotRequested,
        logical: Measure::Unknown,
        allocated: Measure::Unknown,
        observed_at: now.to_owned(),
    }
}

/// A reason put behind those that do not come after it.
pub open spec fn put_in(reasons: Seq<Reason>, reason: Reason) -> Seq<Reason>
    decreases reasons.len(),
{
    if reasons.len() == 0 || reasons.last().rank() <= reason.rank() {
        reasons.push(reason)
    } else {
        put_in(reasons.drop_last(), reason).push(reasons.last())
    }
}

/// Reasons in their order.
pub open spec fn sorted(reasons: Seq<Reason>) -> Seq<Reason>
    decreases reasons.len(),
{
    if reasons.len() == 0 {
        reasons
    } else {
        put_in(sorted(reasons.drop_last()), reasons.last())
    }
}

/// Where a reason lands.
proof fn lemma_put_in(reasons: Seq<Reason>, reason: Reason) -> (at: int)
    ensures
        0 <= at <= reasons.len(),
        put_in(reasons, reason) == reasons.insert(at, reason),
        forall|i: int| at <= i < reasons.len() ==> (#[trigger] reasons[i]).rank() > reason.rank(),
        at > 0 ==> reasons[at - 1].rank() <= reason.rank(),
    decreases reasons.len(),
{
    if reasons.len() == 0 || reasons.last().rank() <= reason.rank() {
        assert(reasons.push(reason) =~= reasons.insert(reasons.len() as int, reason));
        reasons.len() as int
    } else {
        let at = lemma_put_in(reasons.drop_last(), reason);
        assert(reasons.drop_last().insert(at, reason).push(reasons.last()) =~= reasons.insert(
            at,
            reason,
        ));
        assert forall|i: int| at <= i < reasons.len() implies (#[trigger] reasons[i]).rank()
            > reason.rank() by {
            if i < reasons.len() - 1 {
                assert(reasons.drop_last()[i] == reasons[i]);
            }
        }
        at
    }
}

/// Sorted reasons stand in their order, and they are the same reasons.
pub proof fn sorted_reasons_are_in_order(reasons: Seq<Reason>)
    ensures
        sorted(reasons).len() == reasons.len(),
        sorted(reasons).to_multiset() == reasons.to_multiset(),
        forall|i: int, j: int|
            0 <= i < j < sorted(reasons).len() ==> (#[trigger] sorted(reasons)[i]).rank() <= (
            #[trigger] sorted(reasons)[j]).rank(),
    decreases reasons.len(),
{
    broadcast use vstd::seq_lib::group_to_multiset_ensures;

    if reasons.len() > 0 {
        let head = sorted(reasons.drop_last());
        sorted_reasons_are_in_order(reasons.drop_last());
        let at = lemma_put_in(head, reasons.last());
        assert(reasons.drop_last().push(reasons.last()) =~= reasons);
        let list = head.insert(at, reasons.last());
        assert forall|i: int, j: int| 0 <= i < j < list.len() implies (#[trigger] list[i]).rank()
            <= (#[trigger] list[j]).rank() by {
            if i < at && at <= j {
                assert(head[i].rank() <= head[at - 1].rank());
            }
        }
    }
}

fn sort(reasons: &Vec<Reason>) -> (list: Vec<Reason>)
    ensures
        list@ == sorted(reasons@),
{
    let mut list: Vec<Reason> = Vec::new();
    let mut i: usize = 0;
    assert(reasons@.take(0) =~= Seq::<Reason>::empty());
    while i < reasons.len()
        invariant
            i <= reasons.len(),
            list@ == sorted(reasons@.take(i as int)),
        decreases reasons.len() - i,
    {
        let reason = reasons[i];
        let ghost wanted = lemma_put_in(list@, reason);
        let ghost before = list@;
        let mut at: usize = list.len();
        while at > 0 && list[at - 1].place() > reason.place()
            invariant
                at <= list@.len(),
                list@ == before,
                wanted <= at,
                0 <= wanted <= before.len(),
                wanted > 0 ==> before[wanted - 1].rank() <= reason.rank(),
            decreases at,
        {
            at = at - 1;
        }
        list.insert(at, reason);
        proof {
            assert(at == wanted);
            assert(reasons@.take(i + 1).drop_last() =~= reasons@.take(i as int));
        }
        i = i + 1;
    }
    assert(reasons@.take(i as int) =~= reasons@);
    list
}

/// A measurement that became partial for a reason.
pub open spec fn partly(measure: MeasureView, reason: Reason) -> MeasureView {
    match measure {
        MeasureView::Complete { bytes } => MeasureView::Partial {
            observed_bytes: bytes,
            reasons: seq![reason],
        },
        MeasureView::Partial { observed_bytes, reasons } => MeasureView::Partial {
            observed_bytes,
            reasons: if reasons.contains(reason) {
                reasons
            } else {
                sorted(reasons.push(reason))
            },
        },
        MeasureView::Unavailable { reason: old } => MeasureView::Partial {
            observed_bytes: 0,
            reasons: if old == reason {
                seq![reason]
            } else {
                sorted(seq![old, reason])
            },
        },
        MeasureView::Unknown => MeasureView::Partial { observed_bytes: 0, reasons: seq![reason] },
    }
}

fn one_reason(reason: Reason) -> (reasons: Vec<Reason>)
    ensures
        reasons@ == seq![reason],
{
    let mut reasons: Vec<Reason> = Vec::new();
    reasons.push(reason);
    assert(reasons@ =~= seq![reason]);
    reasons
}

/// A measurement that became partial for a reason.
pub fn partial(measure: Measure, reason: Reason) -> (result: Measure)
    ensures
        result@ == partly(measure@, reason),
{
    match measure {
        Measure::Complete { bytes } => Measure::Partial {
            observed_bytes: bytes,
            reasons: one_reason(reason),
        },
        Measure::Partial { observed_bytes, reasons } => {
            if holds_reason(&reasons, reason) {
                Measure::Partial { observed_bytes, reasons }
            } else {
                let mut reasons = reasons;
                reasons.push(reason);
                Measure::Partial { observed_bytes, reasons: sort(&reasons) }
            }
        },
        Measure::Unavailable { reason: old } => {
            let mut reasons = one_reason(old);
            if old != reason {
                reasons.push(reason);
                assert(reasons@ =~= seq![old, reason]);
                reasons = sort(&reasons);
            }
            Measure::Partial { observed_bytes: Bytes::of(0), reasons }
        },
        Measure::Unknown => Measure::Partial {
            observed_bytes: Bytes::of(0),
            reasons: one_reason(reason),
        },
    }
}

/// The usage of the root after its scan ended with a reason.
pub open spec fn marked_usage(
    index: IndexView,
    root: Seq<char>,
    state: ScanState,
    reason: Reason,
    at: Seq<char>,
) -> UsageView {
    let usage = if index.records.contains_key(root) && index.records[root].usage is Some {
        index.records[root].usage->0
    } else {
        unknown_usage(root, at)
    };
    UsageView {
        usage_revision: controller::next_serial(usage.usage_revision),
        scan_state: state,
        observed_at: at,
        logical: partly(usage.logical, reason),
        allocated: partly(usage.allocated, reason),
        ..usage
    }
}

/// Marks the usage of the root as partial. A summary that does not fit is not stored.
pub fn mark_root(
    index: &mut DirectoryIndex,
    root: &str,
    state: ScanState,
    reason: Reason,
    now: &str,
)
    requires
        old(index).wf(),
    ensures
        final(index).wf(),
        final(index).same_holds(old(index)),
        forall|pools: &IndexPools| old(index).backed(pools) ==> final(index).backed(pools),
        final(index)@ == old(index)@.with_usage(
            marked_usage(old(index)@, root@, state, reason, now@),
        ),
{
    let stored: Option<DirectoryUsage> = match index.usage(root) {
        Ok(Some(usage)) => Some(usage.copy()),
        _ => None,
    };
    let usage = match stored {
        Some(usage) => usage,
        None => unknown(root, now),
    };
    let marked = DirectoryUsage {
        directory_id: usage.directory_id,
        usage_revision: usage.usage_revision.saturating_add(1),
        scan_state: state,
        observed_at: now.to_owned(),
        logical: partial(usage.logical, reason),
        allocated: partial(usage.allocated, reason),
    };
    assert(marked@ =~= marked_usage(index@, root@, state, reason, now@));
    let _stored = index.set_usage(marked);
}

/// The id of a usage task.
pub open spec fn task_text(number: u64) -> Seq<char> {
    "usage-task-"@ + text::decimal(number as nat)
}

fn task_name(number: u64) -> (id: String)
    ensures
        id@ == task_text(number),
{
    let mut id = "usage-task-".to_owned();
    id.append(numeral(number as u128).as_str());
    id
}

/// The usage of one root.
pub struct UsageService {
    scope: Scope,
    root_id: String,
    work: Option<WorkRecord>,
    ticket: Option<Ticket>,
    closed: bool,
    cancel_requested: bool,
}

/// Which root is measured, and where the task stands.
#[verifier::ext_equal]
pub struct UsageServiceView {
    pub scope: ScopeView,
    pub root_id: Seq<char>,
    pub work: Option<WorkView>,
    pub ticket: Option<TicketView>,
    pub closed: bool,
    pub cancel_requested: bool,
}

spec fn shown_work(work: Option<WorkRecord>) -> Option<WorkView> {
    match work {
        Some(work) => Some(work@),
        None => None,
    }
}

spec fn shown_ticket(ticket: Option<Ticket>) -> Option<TicketView> {
    match ticket {
        Some(ticket) => Some(ticket@),
        None => None,
    }
}

impl View for UsageService {
    type V = UsageServiceView;

    closed spec fn view(&self) -> UsageServiceView {
        UsageServiceView {
            scope: self.scope@,
            root_id: self.root_id@,
            work: shown_work(self.work),
            ticket: shown_ticket(self.ticket),
            closed: self.closed,
            cancel_requested: self.cancel_requested,
        }
    }
}

impl UsageServiceView {
    /// Why a root cannot be measured.
    pub open spec fn refusal(
        index: IndexView,
        foreground: PoolView,
        scope: ScopeView,
        root_id: Seq<char>,
    ) -> Option<UsageError> {
        if !scope.valid() {
            Some(UsageError::InvalidArgument)
        } else if !index.records.contains_key(root_id) {
            Some(UsageError::EntryExpired)
        } else if index.records[root_id].key.parent_id is Some {
            Some(UsageError::InvalidArgument)
        } else {
            match index.bind_answer(foreground, scope) {
                Err(IndexError::ResourceLimit) => Some(UsageError::ResourceLimit),
                Err(_) => Some(UsageError::InvalidArgument),
                Ok(_) => None,
            }
        }
    }

    /// Why a scan is not started.
    pub open spec fn start_refusal(
        self,
        index: IndexView,
        root: ObservationView,
        number: Option<u64>,
    ) -> Option<UsageError> {
        if root.kind !is Directory {
            Some(UsageError::InvalidArgument)
        } else if !index.records.contains_key(self.root_id) {
            Some(UsageError::EntryExpired)
        } else if root.raw_name != index.records[self.root_id].key.raw_name {
            Some(UsageError::InvalidArgument)
        } else if number is None {
            Some(UsageError::ResourceLimit)
        } else {
            None
        }
    }

    /// The work of a new scan.
    pub open spec fn work_for(self, id: Seq<char>, at: Seq<char>) -> WorkView {
        WorkView {
            session_id: self.scope.session_id,
            generation: self.scope.generation,
            task_id: id,
            operation: Operation::ScanUsage,
            target_id: self.root_id,
            phase: Phase::Queued,
            wait_reason: Some(WaitReason::Slot),
            sequence: 0,
            processed_entries: 0,
            processed_directories: 0,
            observed_at: at,
            issues: IssuesView::none(),
        }
    }

    /// The work of a scan that the scheduler refused.
    pub open spec fn refused_work(work: WorkView) -> WorkView {
        WorkView {
            phase: Phase::Failed,
            wait_reason: None,
            sequence: controller::next_serial(work.sequence),
            issues: work.issues.with(scan_issue("RESOURCE_LIMIT"@)),
            ..work
        }
    }

    /// Whether there is work under this id.
    pub open spec fn has_work(self, id: Seq<char>) -> bool {
        self.work is Some && self.work->0.task_id == id
    }

    /// Whether this is an answer of the token that decides what the scan waits for.
    pub open spec fn told_by<J>(self, scheduler: SchedulerView<J>, told: bool) -> bool {
        match self.ticket {
            Some(ticket) => scheduler.told_by(ticket, told),
            None => !told,
        }
    }

    /// What the scan waits for, as its work tells, by what the token told that decides it. A scan
    /// that was told to stop drains.
    pub open spec fn wait_now<J>(self, scheduler: SchedulerView<J>, told: bool) -> Option<
        WaitReason,
    > {
        if self.cancel_requested {
            Some(WaitReason::Draining)
        } else {
            match self.ticket {
                Some(ticket) => service::wait_reason(scheduler.wait_given(ticket, told)),
                None => None,
            }
        }
    }

    /// The phase of a scan that is not at its end.
    pub open spec fn phase_now<J>(self, scheduler: SchedulerView<J>) -> Phase {
        if self.ticket is Some && scheduler.status(self.ticket->0.serial) == Some(
            Status::Queued,
        ) {
            Phase::Queued
        } else {
            Phase::Running
        }
    }

    /// The service after its work took over where the task stands. Work that ended, and work
    /// whose task ended and is about to say so, stays.
    pub open spec fn synchronized<J>(
        self,
        scheduler: SchedulerView<J>,
        told: bool,
    ) -> UsageServiceView {
        match self.work {
            None => self,
            Some(work) => {
                let running = !work.phase.is_terminal() && (self.ticket is None
                    || scheduler.unfinished(self.ticket->0.serial));
                let phase = self.phase_now(scheduler);
                let wait = self.wait_now(scheduler, told);
                if running && (work.phase != phase || work.wait_reason != wait) {
                    UsageServiceView {
                        work: Some(
                            WorkView {
                                phase,
                                wait_reason: wait,
                                sequence: controller::next_serial(work.sequence),
                                ..work
                            },
                        ),
                        ..self
                    }
                } else {
                    self
                }
            },
        }
    }

    /// Why there is no answer about the work under this id.
    pub open spec fn work_refusal(self, id: Seq<char>) -> Option<UsageError> {
        if self.closed {
            Some(UsageError::SessionClosed)
        } else if !self.has_work(id) {
            Some(UsageError::TaskExpired)
        } else {
            None
        }
    }

    /// Whether work is reported on: there is some, it has not ended, and the service is open.
    pub open spec fn takes_reports(self) -> bool {
        !self.closed && self.work is Some && !self.work->0.phase.is_terminal()
    }

    /// The work after a report of its task. Nothing is reported after the end.
    pub open spec fn reported(
        self,
        counts: Option<(u64, u64, IssuesView)>,
        failure: Option<IssueView>,
        terminal: Option<Phase>,
        at: Seq<char>,
    ) -> UsageServiceView {
        if !self.takes_reports() {
            self
        } else {
            let work = self.work->0;
            let counted = match counts {
                Some(counts) => WorkView {
                    processed_entries: counts.0 as nat,
                    processed_directories: counts.1 as nat,
                    issues: counts.2,
                    ..work
                },
                None => work,
            };
            UsageServiceView {
                work: Some(
                    WorkView {
                        issues: match failure {
                            Some(failure) => counted.issues.with(failure),
                            None => counted.issues,
                        },
                        phase: match terminal {
                            Some(phase) => phase,
                            None => Phase::Running,
                        },
                        wait_reason: if terminal is None && self.cancel_requested {
                            Some(WaitReason::Draining)
                        } else {
                            None
                        },
                        sequence: controller::next_serial(work.sequence),
                        observed_at: at,
                        ..counted
                    },
                ),
                ..self
            }
        }
    }
}

/// The service, the scheduler that it shares, the tasks that were taken out of it, and the
/// index.
#[verifier::ext_equal]
pub struct UsageDesk<J> {
    pub service: UsageServiceView,
    pub scheduler: SchedulerView<J>,
    pub gone: Seq<PendingView<J>>,
    pub index: IndexView,
}

impl<J> UsageDesk<J> {
    /// The desk after a scan was submitted. Where the scheduler refuses it, the root is marked
    /// and the work failed.
    pub open spec fn started(
        self,
        id: Seq<char>,
        at: Seq<char>,
        late: Seq<char>,
        seat: Seat<J>,
    ) -> UsageDesk<J> {
        let work = self.service.work_for(id, at);
        if self.scheduler.refusal(id) is Some {
            UsageDesk {
                service: UsageServiceView {
                    work: Some(UsageServiceView::refused_work(work)),
                    ..self.service
                },
                index: self.index.with_usage(
                    marked_usage(
                        self.index,
                        self.service.root_id,
                        ScanState::Failed,
                        Reason::ResourceLimit,
                        late,
                    ),
                ),
                ..self
            }
        } else {
            UsageDesk {
                service: UsageServiceView {
                    work: Some(work),
                    ticket: Some(
                        TicketView {
                            id,
                            scope: self.service.scope,
                            token: seat.token,
                            serial: self.scheduler.next,
                        },
                    ),
                    ..self.service
                },
                scheduler: self.scheduler.submitted(
                    id,
                    self.service.scope,
                    seat.token,
                    Lane::Background,
                    seat.job,
                ),
                ..self
            }
        }
    }

    /// The desk after a cancellation was asked for. The work says that it drains, whatever a
    /// token tells.
    pub open spec fn cancelled(self, id: Seq<char>) -> UsageDesk<J> {
        if self.service.work_refusal(id) is Some || self.service.work->0.phase.is_terminal()
            || self.service.ticket is None {
            self
        } else {
            let serial = self.service.ticket->0.serial;
            let scheduler = self.scheduler.without_task(serial);
            UsageDesk {
                service: UsageServiceView {
                    cancel_requested: true,
                    ..self.service
                }.synchronized(scheduler, true),
                scheduler,
                gone: match self.scheduler.withdrawn(serial) {
                    Some(task) => self.gone.push(task),
                    None => self.gone,
                },
                ..self
            }
        }
    }

    /// The desk after the service was closed.
    pub open spec fn shut(self) -> UsageDesk<J> {
        let service = UsageServiceView {
            closed: true,
            work: None,
            ticket: None,
            ..self.service
        };
        match self.service.ticket {
            None => UsageDesk { service, ..self },
            Some(ticket) => UsageDesk {
                service,
                scheduler: self.scheduler.without_task(ticket.serial),
                gone: match self.scheduler.withdrawn(ticket.serial) {
                    Some(task) => self.gone.push(task),
                    None => self.gone,
                },
                ..self
            },
        }
    }
}

impl UsageService {
    /// The service, the scheduler, what was taken out of it, and the index.
    pub open spec fn desk<J>(
        &self,
        scheduler: &Scheduler<J>,
        gone: &Vec<Pending<J>>,
        index: &DirectoryIndex,
    ) -> UsageDesk<J> {
        UsageDesk {
            service: self@,
            scheduler: scheduler@,
            gone: scheduler::waiting(gone@),
            index: index@,
        }
    }

    /// A service for a registered root. The index is bound to the scope.
    pub fn new(
        scope: Scope,
        root_id: String,
        index: &mut DirectoryIndex,
        pools: &mut IndexPools,
    ) -> (result: Result<Self, UsageError>)
        requires
            old(index).wf(),
            old(index).backed(old(pools)),
        ensures
            final(index).wf(),
            final(index).backed(final(pools)),
            final(index).same_holds(old(index)),
            match UsageServiceView::refusal(
                old(index)@,
                old(pools).foreground@,
                scope@,
                root_id@,
            ) {
                Some(error) => result is Err && result->Err_0 == error,
                None => {
                    &&& result is Ok
                    &&& result->Ok_0@ == (UsageServiceView {
                        scope: scope@,
                        root_id: root_id@,
                        work: None,
                        ticket: None,
                        closed: false,
                        cancel_requested: false,
                    })
                },
            },
            final(index)@ == (if scope@.valid() && old(index)@.records.contains_key(root_id@)
                && old(index)@.records[root_id@].key.parent_id is None {
                old(index)@.bound(old(pools).foreground@, scope@)
            } else {
                old(index)@
            }),
    {
        if !scope.is_valid() {
            return Err(UsageError::InvalidArgument);
        }
        match index.key(root_id.as_str()) {
            Err(_) => {
                return Err(UsageError::EntryExpired);
            },
            Ok(key) => {
                if key.parent_id.is_some() {
                    return Err(UsageError::InvalidArgument);
                }
            },
        }
        match index.bind_scope(pools, &scope) {
            Ok(_) => {},
            Err(IndexError::ResourceLimit) => {
                return Err(UsageError::ResourceLimit);
            },
            Err(_) => {
                return Err(UsageError::InvalidArgument);
            },
        }
        Ok(
            UsageService {
                scope,
                root_id,
                work: None,
                ticket: None,
                closed: false,
                cancel_requested: false,
            },
        )
    }

    fn new_work(&self, id: &String, observed_at: &str) -> (work: WorkRecord)
        ensures
            work@ == self@.work_for(id@, observed_at@),
    {
        let work = WorkRecord {
            session_id: self.scope.session_id.clone(),
            generation: self.scope.generation,
            task_id: id.clone(),
            operation: Operation::ScanUsage,
            target_id: self.root_id.clone(),
            phase: Phase::Queued,
            wait_reason: Some(WaitReason::Slot),
            sequence: 0,
            processed_entries: Bytes::of(0),
            processed_directories: Bytes::of(0),
            observed_at: observed_at.to_owned(),
            issues: Issues::default(),
        };
        assert(work@ =~= self@.work_for(id@, observed_at@));
        work
    }

    /// Whether a scan of this root can be started.
    fn accept(&self, index: &DirectoryIndex, root: &Observation, number: Option<u64>) -> (
    result: Result<u64, UsageError>)
        requires
            index.wf(),
        ensures
            match self@.start_refusal(index@, root@, number) {
                Some(error) => result == Err::<u64, UsageError>(error),
                None => number is Some && result == Ok::<u64, UsageError>(number->0),
            },
    {
        if root.kind != Kind::Directory {
            return Err(UsageError::InvalidArgument);
        }
        match index.key(self.root_id.as_str()) {
            Err(_) => {
                return Err(UsageError::EntryExpired);
            },
            Ok(key) => {
                if !same_bytes(root.raw_name.as_slice(), key.raw_name.as_slice()) {
                    return Err(UsageError::InvalidArgument);
                }
            },
        }
        match number {
            None => Err(UsageError::ResourceLimit),
            Some(number) => Ok(number),
        }
    }
}

/// What a request to start a scan comes to.
#[verifier::ext_equal]
pub struct StartView<J> {
    pub desk: UsageDesk<J>,
    pub result: Result<WorkView, UsageError>,
    /// The work whose end is to be announced.
    pub failed: Option<WorkView>,
}

impl<J> UsageDesk<J> {
    /// Whether a request to start a scan comes as far as its submission.
    pub open spec fn begins(self, root: ObservationView, number: Option<u64>) -> bool {
        !self.service.closed && self.service.work is None && self.service.start_refusal(
            self.index,
            root,
            number,
        ) is None
    }

    /// What a request to start a scan comes to. A service scans once: a later request gets the
    /// work that is there.
    pub open spec fn start_outcome(
        self,
        root: ObservationView,
        number: Option<u64>,
        at: Seq<char>,
        late: Seq<char>,
        seat: Seat<J>,
    ) -> StartView<J> {
        if self.service.closed {
            StartView { desk: self, result: Err(UsageError::SessionClosed), failed: None }
        } else if self.service.work is Some {
            StartView { desk: self, result: Ok(self.service.work->0), failed: None }
        } else {
            match self.service.start_refusal(self.index, root, number) {
                Some(error) => StartView { desk: self, result: Err(error), failed: None },
                None => {
                    let desk = self.started(task_text(number->0), at, late, seat);
                    if self.scheduler.refusal(task_text(number->0)) is Some {
                        StartView {
                            desk,
                            result: Err(UsageError::ResourceLimit),
                            failed: desk.service.work,
                        }
                    } else {
                        StartView { desk, result: Ok(desk.service.work->0), failed: None }
                    }
                },
            }
        }
    }

    /// Whether an outcome and an answer are those of a request to start a scan.
    pub open spec fn is_start(
        self,
        root: ObservationView,
        number: Option<u64>,
        time: TimeView,
        late: TimeView,
        seat: Seat<J>,
        end: UsageDesk<J>,
        result: Result<WorkRecord, UsageError>,
    ) -> bool {
        let outcome = self.start_outcome(
            root,
            number,
            time.observed_at,
            late.observed_at,
            seat,
        );
        &&& end == outcome.desk
        &&& match outcome.result {
            Ok(work) => result is Ok && result->Ok_0@ == work,
            Err(error) => result == Err::<WorkRecord, UsageError>(error),
        }
    }
}

impl UsageService {
    /// The service, the scheduler and the index.
    pub open spec fn place<J>(
        &self,
        scheduler: &Scheduler<J>,
        index: &DirectoryIndex,
    ) -> UsageDesk<J> {
        UsageDesk {
            service: self@,
            scheduler: scheduler@,
            gone: Seq::empty(),
            index: index@,
        }
    }

    /// Submits the scan. False when the scheduler refuses it.
    fn submit<J, F: FnOnce(String) -> J>(
        &mut self,
        scheduler: &mut Scheduler<J>,
        number: u64,
        observed_at: &str,
        make: F,
    ) -> (accepted: bool)
        requires
            old(scheduler).wf(),
            old(scheduler)@.next < u64::MAX,
            forall|name: String| make.requires((name,)),
        ensures
            final(scheduler).wf(),
            final(scheduler).budget() == old(scheduler).budget(),
            ({
                let id = task_text(number);
                let work = old(self)@.work_for(id, observed_at@);
                &&& accepted == (old(scheduler)@.refusal(id) is None)
                &&& !accepted ==> {
                    &&& final(self)@ == (UsageServiceView { work: Some(work), ..old(self)@ })
                    &&& final(scheduler)@ == old(scheduler)@
                }
                &&& accepted ==> exists|seat: Seat<J>|
                    {
                        &&& #[trigger] service::seated(make, id, seat)
                        &&& final(self)@ == (UsageServiceView {
                            work: Some(work),
                            ticket: Some(
                                TicketView {
                                    id,
                                    scope: old(self)@.scope,
                                    token: seat.token,
                                    serial: old(scheduler)@.next,
                                },
                            ),
                            ..old(self)@
                        })
                        &&& final(scheduler)@ == old(scheduler)@.submitted(
                            id,
                            old(self)@.scope,
                            seat.token,
                            Lane::Background,
                            seat.job,
                        )
                    }
            }),
    {
        let id = task_name(number);
        let work = self.new_work(&id, observed_at);
        self.work = Some(work);
        let ghost given = id;
        let job = make(id.clone());
        let ghost made = job;
        assert(service::made_for(make, task_text(number), made));
        match scheduler.submit(id, self.scope.copy(), Lane::Background, job) {
            Ok(ticket) => {
                let ghost seat = Seat { token: ticket@.token, job: made };
                assert(service::seated(make, task_text(number), seat));
                self.ticket = Some(ticket);
                true
            },
            Err(_) => false,
        }
    }

    /// Fails the scan that the scheduler refused, and marks its root.
    fn fail(&mut self, index: &mut DirectoryIndex, observed_at: &str)
        requires
            old(self)@.work is Some,
            old(index).wf(),
        ensures
            final(index).wf(),
            final(index).same_holds(old(index)),
            forall|pools: &IndexPools| old(index).backed(pools) ==> final(index).backed(pools),
            final(index)@ == old(index)@.with_usage(
                marked_usage(
                    old(index)@,
                    old(self)@.root_id,
                    ScanState::Failed,
                    Reason::ResourceLimit,
                    observed_at@,
                ),
            ),
            final(self)@ == (UsageServiceView {
                work: Some(UsageServiceView::refused_work(old(self)@.work->0)),
                ..old(self)@
            }),
    {
        mark_root(
            index,
            self.root_id.as_str(),
            ScanState::Failed,
            Reason::ResourceLimit,
            observed_at,
        );
        if let Some(work) = &mut self.work {
            work.phase = Phase::Failed;
            work.wait_reason = None;
            work.sequence = work.sequence.saturating_add(1);
            work.issues.record(issue("RESOURCE_LIMIT"));
        }
        assert(self@ =~= (UsageServiceView {
            work: Some(UsageServiceView::refused_work(old(self)@.work->0)),
            ..old(self)@
        }));
    }

    fn current_work(&self) -> (work: Option<WorkRecord>)
        ensures
            match work {
                Some(work) => self@.work == Some(work@),
                None => self@.work is None,
            },
    {
        match &self.work {
            Some(work) => Some(work.copy()),
            None => None,
        }
    }

    /// Starts the scan of the root under a task number that nobody else has, or hands out the work
    /// that is there. The root is opened by its task. A scan that the scheduler refuses is
    /// announced as failed.
    pub fn start<J, F: FnOnce(String) -> J, C: Clock + ?Sized, E: EventSink + ?Sized>(
        &mut self,
        index: &mut DirectoryIndex,
        scheduler: &mut Scheduler<J>,
        root: &Observation,
        number: Option<u64>,
        clock: &C,
        sink: &E,
        make: F,
    ) -> (result: Result<WorkRecord, UsageError>)
        requires
            old(index).wf(),
            old(scheduler).wf(),
            old(scheduler)@.next < u64::MAX,
            forall|name: String| make.requires((name,)),
        ensures
            final(index).wf(),
            final(index).same_holds(old(index)),
            forall|pools: &IndexPools| old(index).backed(pools) ==> final(index).backed(pools),
            final(scheduler).wf(),
            final(scheduler).budget() == old(scheduler).budget(),
            exists|time: TimeView, late: TimeView, seat: Seat<J>|
                {
                    let before = old(self).place(old(scheduler), old(index));
                    let outcome = before.start_outcome(
                        root@,
                        number,
                        time.observed_at,
                        late.observed_at,
                        seat,
                    );
                    &&& #[trigger] old(self).place(old(scheduler), old(index)).is_start(
                        root@,
                        number,
                        time,
                        late,
                        seat,
                        final(self).place(final(scheduler), final(index)),
                        result,
                    )
                    &&& before.begins(root@, number) ==> clock::reads(clock, time)
                    &&& before.begins(root@, number) && outcome.failed is None ==> service::seated(
                        make,
                        task_text(number->0),
                        seat,
                    )
                    &&& outcome.failed is Some ==> clock::reads(clock, late) && events::offered(
                        sink,
                        TaskEventsView::none().offer(outcome.failed->0, EventKind::Terminal),
                    )
                },
    {
        let ghost start = self.place(scheduler, index);
        let ghost nothing = arbitrary::<TimeView>();
        if self.closed {
            let result: Result<WorkRecord, UsageError> = Err(UsageError::SessionClosed);
            assert(start.is_start(
                root@,
                number,
                nothing,
                nothing,
                arbitrary::<Seat<J>>(),
                start,
                result,
            ));
            return result;
        }
        if let Some(work) = self.current_work() {
            let result: Result<WorkRecord, UsageError> = Ok(work);
            assert(start.is_start(
                root@,
                number,
                nothing,
                nothing,
                arbitrary::<Seat<J>>(),
                start,
                result,
            ));
            return result;
        }
        let given = match self.accept(index, root, number) {
            Ok(given) => given,
            Err(error) => {
                let result: Result<WorkRecord, UsageError> = Err(error);
                assert(start.is_start(
                    root@,
                    number,
                    nothing,
                    nothing,
                    arbitrary::<Seat<J>>(),
                    start,
                    result,
                ));
                return result;
            },
        };
        let time = clock.sample();
        let ghost at = time@;
        let ghost before = scheduler@;
        assert(call_ensures(C::sample, (clock,), time));
        assert(clock::reads(clock, at));
        let accepted = self.submit(scheduler, given, time.observed_at.as_str(), make);
        if accepted {
            let ghost seat = choose|seat: Seat<J>|
                {
                    &&& #[trigger] service::seated(make, task_text(given), seat)
                    &&& self@.ticket == Some(
                        TicketView {
                            id: task_text(given),
                            scope: start.service.scope,
                            token: seat.token,
                            serial: before.next,
                        },
                    )
                    &&& scheduler@ == before.submitted(
                        task_text(given),
                        start.service.scope,
                        seat.token,
                        Lane::Background,
                        seat.job,
                    )
                };
            let ghost end = self.place(scheduler, index);
            assert(end =~= start.started(
                task_text(given),
                at.observed_at,
                nothing.observed_at,
                seat,
            ));
            match self.current_work() {
                Some(work) => {
                    let result: Result<WorkRecord, UsageError> = Ok(work);
                    assert(start.is_start(root@, number, at, nothing, seat, end, result));
                    result
                },
                None => {
                    assert(false);
                    Err(UsageError::TaskExpired)
                },
            }
        } else {
            let late = clock.sample();
            assert(call_ensures(C::sample, (clock,), late));
            assert(clock::reads(clock, late@));
            self.fail(index, late.observed_at.as_str());
            if let Some(work) = self.current_work() {
                let mut told = TaskEvents::default();
                let taken = told.publish(&work, EventKind::Terminal, late.monotonic_ms, sink);
                assert(events::handed(
                    sink,
                    TaskEventsView::none().offer(work@, EventKind::Terminal),
                    taken,
                ));
            }
            let result: Result<WorkRecord, UsageError> = Err(UsageError::ResourceLimit);
            let ghost end = self.place(scheduler, index);
            proof {
                let seat = arbitrary::<Seat<J>>();
                assert(end =~= start.started(
                    task_text(given),
                    at.observed_at,
                    late.observed_at@,
                    seat,
                ));
                assert(start.is_start(root@, number, at, late@, seat, end, result));
            }
            result
        }
    }

    /// Lets the work take over where its task stands.
    fn synchronize<J>(&mut self, scheduler: &Scheduler<J>)
        ensures
            exists|told: bool|
                {
                    &&& old(self)@.told_by(scheduler@, told)
                    &&& final(self)@ == #[trigger] old(self)@.synchronized(scheduler@, told)
                },
    {
        let ghost before = self@;
        let ghost mut told = false;
        let mut wait: Option<WaitReason> = None;
        let mut phase = Phase::Running;
        let mut running = true;
        if let Some(ticket) = &self.ticket {
            let given = scheduler.wait_reason(ticket);
            wait = shown_wait(given);
            proof {
                told = choose|told: bool|
                    scheduler@.told_by(ticket@, told) && given == #[trigger] scheduler@.wait_given(
                        ticket@,
                        told,
                    );
            }
            match ticket.status(scheduler) {
                Some(status) => {
                    running = !status.terminal();
                    if status == Status::Queued {
                        phase = Phase::Queued;
                    }
                },
                None => {
                    running = false;
                },
            }
        }
        if self.cancel_requested {
            wait = Some(WaitReason::Draining);
        }
        if let Some(work) = &mut self.work {
            if !work.phase.terminal() && running && (work.phase != phase || !model::same_wait(
                work.wait_reason,
                wait,
            )) {
                work.phase = phase;
                work.wait_reason = wait;
                work.sequence = work.sequence.saturating_add(1);
            }
        }
        assert(self@ =~= before.synchronized(scheduler@, told));
    }

    /// The work of the scan.
    pub fn work<J>(&mut self, scheduler: &Scheduler<J>, id: &str) -> (result: Result<
        WorkRecord,
        UsageError,
    >)
        ensures
            match old(self)@.work_refusal(id@) {
                Some(error) => {
                    &&& result == Err::<WorkRecord, UsageError>(error)
                    &&& final(self)@ == old(self)@
                },
                None => {
                    &&& exists|told: bool|
                        {
                            &&& old(self)@.told_by(scheduler@, told)
                            &&& final(self)@ == #[trigger] old(self)@.synchronized(
                                scheduler@,
                                told,
                            )
                        }
                    &&& result is Ok
                    &&& Some(result->Ok_0@) == final(self)@.work
                },
            },
    {
        if self.closed {
            return Err(UsageError::SessionClosed);
        }
        match &self.work {
            None => {
                return Err(UsageError::TaskExpired);
            },
            Some(work) => {
                if !same_text(work.task_id.as_str(), id) {
                    return Err(UsageError::TaskExpired);
                }
            },
        }
        self.synchronize(scheduler);
        match self.current_work() {
            Some(work) => Ok(work),
            None => Err(UsageError::TaskExpired),
        }
    }

    /// Cancels the scan. The answer tells of the work that is published: a task that ended while
    /// its results are still being published is accepted too.
    pub fn cancel<J>(
        &mut self,
        scheduler: &mut Scheduler<J>,
        gone: &mut Vec<Pending<J>>,
        index: &DirectoryIndex,
        id: &str,
    ) -> (result: Result<(CancelStatus, WorkRecord), UsageError>)
        requires
            old(scheduler).wf(),
        ensures
            final(scheduler).wf(),
            final(scheduler).budget() == old(scheduler).budget(),
            final(self).desk(final(scheduler), final(gone), index) == old(self).desk(
                old(scheduler),
                old(gone),
                index,
            ).cancelled(id@),
            match old(self)@.work_refusal(id@) {
                Some(error) => result == Err::<(CancelStatus, WorkRecord), UsageError>(error),
                None => if old(self)@.work->0.phase.is_terminal() {
                    &&& result is Ok
                    &&& result->Ok_0.0 is AlreadyTerminal
                    &&& Some(result->Ok_0.1@) == old(self)@.work
                } else if old(self)@.ticket is None {
                    result == Err::<(CancelStatus, WorkRecord), UsageError>(
                        UsageError::TaskExpired,
                    )
                } else {
                    &&& result is Ok
                    &&& result->Ok_0.0 is Accepted
                    &&& Some(result->Ok_0.1@) == final(self)@.work
                    &&& old(scheduler)@.unfinished(old(self)@.ticket->0.serial)
                        ==> old(self)@.ticket->0.token.asked()
                },
            },
    {
        let ghost start = self.desk(scheduler, gone, index);
        if self.closed {
            return Err(UsageError::SessionClosed);
        }
        let known = match self.current_work() {
            Some(work) => work,
            None => {
                return Err(UsageError::TaskExpired);
            },
        };
        if !same_text(known.task_id.as_str(), id) {
            return Err(UsageError::TaskExpired);
        }
        if known.phase.terminal() {
            return Ok((CancelStatus::AlreadyTerminal, known));
        }
        let ticket = match &self.ticket {
            Some(ticket) => ticket.clone(),
            None => {
                return Err(UsageError::TaskExpired);
            },
        };
        self.cancel_requested = true;
        let (accepted, task) = scheduler.cancel_task(&ticket);
        if let Some(task) = task {
            let ghost held = scheduler::waiting(gone@);
            let ghost shown = task@;
            gone.push(task);
            assert(scheduler::waiting(gone@) =~= held.push(shown));
        }
        let work = match self.work(scheduler, id) {
            Ok(work) => work,
            Err(error) => {
                return Err(error);
            },
        };
        assert(self.desk(scheduler, gone, index) =~= start.cancelled(id@));
        let status = if accepted || !work.phase.terminal() {
            CancelStatus::Accepted
        } else {
            CancelStatus::AlreadyTerminal
        };
        Ok((status, work))
    }

    /// Ends the service and cancels its task.
    pub fn close<J>(
        &mut self,
        scheduler: &mut Scheduler<J>,
        gone: &mut Vec<Pending<J>>,
        index: &DirectoryIndex,
    )
        requires
            old(scheduler).wf(),
        ensures
            final(scheduler).wf(),
            final(scheduler).budget() == old(scheduler).budget(),
            final(self).desk(final(scheduler), final(gone), index) == old(self).desk(
                old(scheduler),
                old(gone),
                index,
            ).shut(),
            old(self)@.ticket is Some && old(scheduler)@.unfinished(old(self)@.ticket->0.serial)
                ==> old(self)@.ticket->0.token.asked(),
    {
        let ghost start = self.desk(scheduler, gone, index);
        self.closed = true;
        self.work = None;
        let mut ticket: Option<Ticket> = None;
        std::mem::swap(&mut ticket, &mut self.ticket);
        if let Some(ticket) = ticket {
            let (_told, task) = scheduler.cancel_task(&ticket);
            if let Some(task) = task {
                let ghost held = scheduler::waiting(gone@);
                let ghost shown = task@;
                gone.push(task);
                assert(scheduler::waiting(gone@) =~= held.push(shown));
            }
        }
        assert(self.desk(scheduler, gone, index) =~= start.shut());
    }

    /// Whether the service was closed.
    pub fn is_closed(&self) -> (closed: bool)
        ensures
            closed == self@.closed,
    {
        self.closed
    }

    /// The id of the root.
    pub fn root_id(&self) -> (id: &str)
        ensures
            id@ == self@.root_id,
    {
        self.root_id.as_str()
    }

    /// Takes a report of the task into the work. What is to be announced comes back; nothing does
    /// once the work ended or the service was closed.
    pub fn report(
        &mut self,
        counts: Option<(u64, u64, Issues)>,
        failure: Option<FsIssue>,
        terminal: Option<Phase>,
        observed_at: String,
    ) -> (work: Option<WorkRecord>)
        ensures
            ({
                let shown = match counts {
                    Some(counts) => Some((counts.0, counts.1, counts.2@)),
                    None => None,
                };
                final(self)@ == old(self)@.reported(
                    shown,
                    cache::optional_issue(failure),
                    terminal,
                    observed_at@,
                )
            }),
            work is Some <==> old(self)@.takes_reports(),
            work is Some ==> final(self)@.work == Some(work->0@),
    {
        let ghost before = self@;
        if self.closed {
            return None;
        }
        let cancelled = self.cancel_requested;
        if let Some(work) = &mut self.work {
            if work.phase.terminal() {
                return None;
            }
            if let Some((entries, directories, issues)) = counts {
                work.processed_entries = Bytes::of(entries as u128);
                work.processed_directories = Bytes::of(directories as u128);
                work.issues = issues;
            }
            if let Some(failure) = failure {
                work.issues.record(failure);
            }
            work.phase = match terminal {
                Some(phase) => phase,
                None => Phase::Running,
            };
            work.wait_reason = if terminal.is_none() && cancelled {
                Some(WaitReason::Draining)
            } else {
                None
            };
            work.sequence = work.sequence.saturating_add(1);
            work.observed_at = observed_at;
        } else {
            return None;
        }
        self.current_work()
    }
}

/// How many directories can be asked for at once.
pub const MAX_READ_IDS: usize = 1000;

/// The largest answer, in bytes, and the room that its envelope takes.
pub const MESSAGE_BYTES: usize = 1_048_576;

pub const ENVELOPE_BYTES: usize = 128;

/// What is known of the usage of a directory.
pub open spec fn usage_now(index: IndexView, id: Seq<char>, at: Seq<char>) -> UsageView {
    match index.records[id].usage {
        Some(usage) => usage,
        None => unknown_usage(id, at),
    }
}

/// What is known of the usage of some directories.
pub open spec fn usages_now(index: IndexView, ids: Seq<Seq<char>>, at: Seq<char>) -> Seq<UsageView> {
    Seq::new(ids.len(), |i: int| usage_now(index, ids[i], at))
}

impl UsageServiceView {
    /// Why the usage of some directories is not told.
    pub open spec fn read_refusal(
        self,
        index: IndexView,
        ids: Seq<Seq<char>>,
        at: Seq<char>,
    ) -> Option<UsageError> {
        if ids.len() > MAX_READ_IDS {
            Some(UsageError::InvalidArgument)
        } else if self.closed {
            Some(UsageError::SessionClosed)
        } else if exists|i: int| 0 <= i < ids.len() && !index.records.contains_key(
            #[trigger] ids[i],
        ) {
            Some(UsageError::EntryExpired)
        } else if wire::json_len(wire::array(wire::usage_texts(usages_now(index, ids, at))))
            + ENVELOPE_BYTES > MESSAGE_BYTES {
            Some(UsageError::ResourceLimit)
        } else {
            None
        }
    }
}

impl UsageService {
    /// The usage of some directories, as far as it was measured. Every id is validated before
    /// anything is told, and nothing is measured for it.
    pub fn read_usage(&self, index: &DirectoryIndex, ids: &Vec<String>, observed_at: &str) -> (
    result: Result<Vec<DirectoryUsage>, UsageError>)
        requires
            index.wf(),
        ensures
            match self@.read_refusal(index@, model::views(ids@), observed_at@) {
                Some(error) => result is Err && result->Err_0 == error,
                None => {
                    &&& result is Ok
                    &&& model::views(result->Ok_0@) == usages_now(
                        index@,
                        model::views(ids@),
                        observed_at@,
                    )
                },
            },
    {
        let ghost names = model::views(ids@);
        if ids.len() > MAX_READ_IDS {
            return Err(UsageError::InvalidArgument);
        }
        if self.closed {
            return Err(UsageError::SessionClosed);
        }
        let mut values: Vec<DirectoryUsage> = Vec::new();
        let mut i: usize = 0;
        while i < ids.len()
            invariant
                i <= ids.len(),
                index.wf(),
                names == model::views(ids@),
                values@.len() == i,
                names.len() <= MAX_READ_IDS,
                !self.closed,
                forall|j: int|
                    0 <= j < i ==> index@.records.contains_key(#[trigger] names[j]) && values@[j]@
                        == usage_now(index@, names[j], observed_at@),
            decreases ids.len() - i,
        {
            let id = ids[i].as_str();
            assert(names[i as int] == ids@[i as int]@);
            let usage = match index.usage(id) {
                Ok(Some(usage)) => usage.copy(),
                Ok(None) => unknown(id, observed_at),
                Err(_) => {
                    return Err(UsageError::EntryExpired);
                },
            };
            let ghost shown = usage@;
            values.push(usage);
            assert(values@[i as int]@ == shown);
            i = i + 1;
        }
        assert(model::views(values@) =~= usages_now(index@, names, observed_at@));
        let size: usize = byte_len(encode_usages(&values).as_str());
        if size > MESSAGE_BYTES - ENVELOPE_BYTES {
            return Err(UsageError::ResourceLimit);
        }
        Ok(values)
    }
}

/// Work that ended is not reported on again: its phase and its sequence stay.
pub proof fn ended_work_is_final(
    service: UsageServiceView,
    counts: Option<(u64, u64, IssuesView)>,
    failure: Option<IssueView>,
    terminal: Option<Phase>,
    at: Seq<char>,
)
    requires
        service.work is Some,
        service.work->0.phase.is_terminal(),
    ensures
        service.reported(counts, failure, terminal, at) == service,
{
}

/// Once cancellation was asked for, work that goes on says that it drains.
pub proof fn cancelled_work_drains<J>(
    service: UsageServiceView,
    scheduler: SchedulerView<J>,
    counts: Option<(u64, u64, IssuesView)>,
    failure: Option<IssueView>,
    at: Seq<char>,
    told: bool,
)
    requires
        service.cancel_requested,
        !service.closed,
        service.work is Some,
        !service.work->0.phase.is_terminal(),
    ensures
        service.reported(counts, failure, None, at).work->0.wait_reason == Some(
            WaitReason::Draining,
        ),
        service.ticket is None || scheduler.unfinished(service.ticket->0.serial)
            ==> service.synchronized(scheduler, told).work->0.wait_reason == Some(
            WaitReason::Draining,
        ),
{
}

/// A closed service tells nothing, starts nothing and takes no report.
pub proof fn a_closed_usage_service_is_done<J>(
    desk: UsageDesk<J>,
    index: IndexView,
    ids: Seq<Seq<char>>,
    at: Seq<char>,
    late: Seq<char>,
    root: ObservationView,
    number: Option<u64>,
    seat: Seat<J>,
    id: Seq<char>,
)
    requires
        ids.len() <= MAX_READ_IDS,
    ensures
        ({
            let after = desk.shut();
            &&& after.service.read_refusal(index, ids, at) == Some(UsageError::SessionClosed)
            &&& after.service.work_refusal(id) == Some(UsageError::SessionClosed)
            &&& after.start_outcome(root, number, at, late, seat).result == Err::<
                WorkView,
                UsageError,
            >(UsageError::SessionClosed)
            &&& after.service.reported(None, None, None, at) == after.service
        }),
{
}

/// A service scans once: a second request gets the work of the first and changes nothing.
pub proof fn a_scan_is_started_once<J>(
    desk: UsageDesk<J>,
    root: ObservationView,
    number: Option<u64>,
    at: Seq<char>,
    late: Seq<char>,
    seat: Seat<J>,
    again: ObservationView,
    other: Option<u64>,
    other_seat: Seat<J>,
)
    requires
        desk.start_outcome(root, number, at, late, seat).result is Ok,
    ensures
        ({
            let first = desk.start_outcome(root, number, at, late, seat);
            let second = first.desk.start_outcome(again, other, at, late, other_seat);
            &&& second.desk == first.desk
            &&& second.result == first.result
        }),
{
}

/// A measurement that became partial gives the reason, keeps the reasons that it gave before and
/// the bytes that were observed.
pub proof fn a_partial_measurement_gives_its_reasons(measure: MeasureView, reason: Reason)
    ensures
        partly(measure, reason) is Partial,
        partly(measure, reason)->reasons.contains(reason),
        measure matches MeasureView::Partial { observed_bytes, reasons } ==> partly(
            measure,
            reason,
        )->observed_bytes == observed_bytes && forall|r: Reason|
            reasons.contains(r) ==> #[trigger] partly(measure, reason)->reasons.contains(r),
        measure matches MeasureView::Complete { bytes } ==> partly(measure, reason)->observed_bytes
            == bytes,
{
    broadcast use vstd::seq_lib::group_to_multiset_ensures;

    match measure {
        MeasureView::Partial { observed_bytes, reasons } => {
            if !reasons.contains(reason) {
                let more = reasons.push(reason);
                sorted_reasons_are_in_order(more);
                assert(more[reasons.len() as int] == reason);
                assert(more.contains(reason));
                assert(sorted(more).to_multiset().count(reason) > 0);
                assert forall|r: Reason| reasons.contains(r) implies #[trigger] sorted(
                    more,
                ).contains(r) by {
                    let i = choose|i: int| 0 <= i < reasons.len() && reasons[i] == r;
                    assert(more[i] == r);
                    assert(more.contains(r));
                    assert(sorted(more).to_multiset().count(r) > 0);
                }
            }
        },
        MeasureView::Unavailable { reason: old } => {
            if old != reason {
                let more = seq![old, reason];
                sorted_reasons_are_in_order(more);
                assert(more[1] == reason);
                assert(more.contains(reason));
                assert(sorted(more).to_multiset().count(reason) > 0);
            } else {
                assert(seq![reason][0] == reason);
            }
        },
        _ => {
            assert(seq![reason][0] == reason);
        },
    }
}

} // verus!
