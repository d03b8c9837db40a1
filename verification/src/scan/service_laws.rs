//! What the service of a scan is for: it starts one scan, tells how far it is, and tells the usage
//! that was measured.
use vstd::prelude::*;

use crate::domain::index::{IndexView, Origin};
use crate::domain::laws::{a_root_is_registered_once, is_plain};
use crate::domain::model::{
    FsIssue, IssueScope, IssueView, IssuesView, Kind, MeasureView, Operation, Phase, Reason,
    ScanState, UsageView, WaitReason, WorkView,
};
use crate::domain::wire;
use crate::runtime::clock::TimeView;
use crate::scan::aggregate::{Observation, ObservationView};
use crate::scan::identity::FileIdentity;
use crate::scan::job;
use crate::scan::job::{Ground, Stage, StageEnd, UsageJobView};
use crate::scan::laws::{gives, reason_for, size_of};
use crate::scan::service;
use crate::scan::service::{UsageDesk, UsageError, UsageServiceView};
use crate::scan::usage;
use crate::scan::usage::{Heard, OpeningView, Part, ScanLimits, ScanPhase, ScannerView};
use crate::scheduler::{JobStep, SchedulerView, Seat, Status, TicketView};
use crate::text;

verus! {

/// The usage of directories is told for up to a thousand of them, in the order in which they were
/// asked for: what was measured, exactly as it is in the index, or that nothing was asked for yet.
/// It is refused, all of it, for too many, once the service was closed, where one is not known, and
/// where the answer would not fit a message.
pub proof fn usage_is_told_as_it_was_measured(
    service: UsageServiceView,
    index: IndexView,
    ids: Seq<Seq<char>>,
    at: Seq<char>,
    i: int,
)
    requires
        0 <= i < ids.len(),
    ensures
        ({
            let told = service::usages_now(index, ids, at);
            let known = forall|k: int|
                0 <= k < ids.len() ==> index.records.contains_key(#[trigger] ids[k]);
            let size = wire::json_len(wire::array(wire::usage_texts(told)));
            &&& told.len() == ids.len()
            &&& index.records[ids[i]].usage is Some ==> told[i] == index.records[ids[i]].usage->0
            &&& index.records[ids[i]].usage is None ==> {
                &&& told[i].directory_id == ids[i]
                &&& told[i].usage_revision == 0
                &&& told[i].scan_state == ScanState::NotRequested
                &&& told[i].logical is Unknown
                &&& told[i].allocated is Unknown
                &&& told[i].observed_at == at
            }
            &&& service.read_refusal(index, ids, at) == (if ids.len() > 1000 {
                Some(UsageError::InvalidArgument)
            } else if service.closed {
                Some(UsageError::SessionClosed)
            } else if !known {
                Some(UsageError::EntryExpired)
            } else if size > 1_048_448 {
                Some(UsageError::ResourceLimit)
            } else {
                None
            })
        }),
{
    let known = forall|k: int|
        0 <= k < ids.len() ==> index.records.contains_key(#[trigger] ids[k]);
    if !known {
        let k = choose|k: int| 0 <= k < ids.len() && !index.records.contains_key(#[trigger] ids[k]);
        assert(!index.records.contains_key(ids[k]));
    }
}

/// A scan of the root is started where the root is a directory, the index knows it under the name
/// that was observed, and the scheduler has room: its work is queued and waits for a slot under the
/// next task id, and its task goes to the end of the background lane. Nothing is measured yet.
pub proof fn a_scan_is_started<J>(
    desk: UsageDesk<J>,
    root: ObservationView,
    number: u64,
    at: Seq<char>,
    late: Seq<char>,
    seat: Seat<J>,
)
    requires
        !desk.service.closed,
        desk.service.work is None,
        root.kind is Directory,
        desk.index.records.contains_key(desk.service.root_id),
        desk.index.records[desk.service.root_id].key.raw_name == root.raw_name,
        desk.scheduler.refusal("usage-task-"@ + text::decimal(number as nat)) is None,
    ensures
        ({
            let outcome = desk.start_outcome(root, Some(number), at, late, seat);
            let id = "usage-task-"@ + text::decimal(number as nat);
            let work = outcome.result->Ok_0;
            let ticket = TicketView {
                id,
                scope: desk.service.scope,
                token: seat.token,
                serial: desk.scheduler.next,
            };
            &&& outcome.result is Ok
            &&& work.session_id == desk.service.scope.session_id
            &&& work.generation == desk.service.scope.generation
            &&& work.task_id == id
            &&& work.operation == Operation::ScanUsage
            &&& work.target_id == desk.service.root_id
            &&& work.phase == Phase::Queued
            &&& work.wait_reason == Some(WaitReason::Slot)
            &&& work.sequence == 0
            &&& work.processed_entries == 0
            &&& work.processed_directories == 0
            &&& work.observed_at == at
            &&& outcome.desk.service.work == Some(work)
            &&& outcome.desk.service.ticket == Some(ticket)
            &&& !outcome.desk.service.closed
            &&& outcome.desk.index == desk.index
            &&& outcome.desk.scheduler.background.len() == desk.scheduler.background.len() + 1
            &&& outcome.desk.scheduler.background.last().ticket == ticket
            &&& outcome.desk.scheduler.background.last().job == seat.job
            &&& outcome.desk.scheduler.foreground == desk.scheduler.foreground
        }),
{
}

/// A request for a scan is refused for these causes, and then nothing is started: the service was
/// closed, what was observed is no directory or has another name than the root, the index does not
/// know the root, and there is no number for a task. A scan that is there already is handed out
/// again.
pub proof fn a_scan_is_refused_for_a_cause<J>(
    desk: UsageDesk<J>,
    root: ObservationView,
    number: Option<u64>,
    at: Seq<char>,
    late: Seq<char>,
    seat: Seat<J>,
)
    ensures
        ({
            let outcome = desk.start_outcome(root, number, at, late, seat);
            let id = desk.service.root_id;
            let open = !desk.service.closed && desk.service.work is None;
            &&& desk.service.closed ==> outcome.result == Err::<WorkView, UsageError>(
                UsageError::SessionClosed,
            ) && outcome.desk == desk
            &&& !desk.service.closed && desk.service.work is Some ==> outcome.result == Ok::<
                WorkView,
                UsageError,
            >(desk.service.work->0) && outcome.desk == desk
            &&& open && !(root.kind is Directory) ==> outcome.result == Err::<
                WorkView,
                UsageError,
            >(UsageError::InvalidArgument) && outcome.desk == desk
            &&& open && root.kind is Directory && !desk.index.records.contains_key(id)
                ==> outcome.result == Err::<WorkView, UsageError>(UsageError::EntryExpired)
                && outcome.desk == desk
            &&& open && root.kind is Directory && desk.index.records.contains_key(id)
                && desk.index.records[id].key.raw_name != root.raw_name ==> outcome.result == Err::<
                WorkView,
                UsageError,
            >(UsageError::InvalidArgument) && outcome.desk == desk
            &&& open && root.kind is Directory && desk.index.records.contains_key(id)
                && desk.index.records[id].key.raw_name == root.raw_name && number is None
                ==> outcome.result == Err::<WorkView, UsageError>(UsageError::ResourceLimit)
                && outcome.desk == desk
        }),
{
}

/// A scan that the scheduler refuses has failed for want of resources: its work says so, and its
/// root is marked as failed and partial.
pub proof fn a_scan_without_room_has_failed<J>(
    desk: UsageDesk<J>,
    root: ObservationView,
    number: u64,
    at: Seq<char>,
    late: Seq<char>,
    seat: Seat<J>,
)
    requires
        !desk.service.closed,
        desk.service.work is None,
        root.kind is Directory,
        desk.index.records.contains_key(desk.service.root_id),
        desk.index.records[desk.service.root_id].key.raw_name == root.raw_name,
        desk.index.records[desk.service.root_id].usage is None,
        desk.scheduler.refusal("usage-task-"@ + text::decimal(number as nat)) is Some,
    ensures
        ({
            let outcome = desk.start_outcome(root, Some(number), at, late, seat);
            let work = outcome.desk.service.work->0;
            &&& outcome.result == Err::<WorkView, UsageError>(UsageError::ResourceLimit)
            &&& outcome.desk.service.work is Some
            &&& outcome.failed == Some(work)
            &&& work.phase == Phase::Failed
            &&& work.wait_reason is None
            &&& work.sequence == 1
            &&& work.issues.samples.len() == 1
            &&& work.issues.samples[0].code == "RESOURCE_LIMIT"@
            &&& outcome.desk.scheduler == desk.scheduler
            &&& exists|usage: UsageView|
                {
                    &&& outcome.desk.index == #[trigger] desk.index.with_usage(usage)
                    &&& usage.directory_id == desk.service.root_id
                    &&& usage.scan_state == ScanState::Failed
                    &&& usage.logical == (MeasureView::Partial {
                        observed_bytes: 0,
                        reasons: seq![Reason::ResourceLimit],
                    })
                    &&& usage.allocated == usage.logical
                    &&& usage.observed_at == late
                }
        }),
{
    let usage = service::marked_usage(
        desk.index,
        desk.service.root_id,
        ScanState::Failed,
        Reason::ResourceLimit,
        late,
    );
    let outcome = desk.start_outcome(root, Some(number), at, late, seat);
    assert(outcome.desk.index == desk.index.with_usage(usage));
}

/// The work of a scan shows where its task stands: queued while the task waits in its lane, else
/// running, with what it waits for; a scan that was told to stop drains. A change is shown under the
/// next sequence; what has ended is left as it is.
pub proof fn work_shows_where_its_task_stands<J>(
    service: UsageServiceView,
    scheduler: SchedulerView<J>,
    told: bool,
)
    requires
        service.work is Some,
        service.ticket is Some,
        service.work->0.sequence < u64::MAX,
    ensures
        ({
            let before = service.work->0;
            let after = service.synchronized(scheduler, told).work->0;
            let status = scheduler.status(service.ticket->0.serial);
            let over = before.phase == Phase::Completed || before.phase == Phase::Failed
                || before.phase == Phase::Cancelled;
            let live = status == Some(Status::Queued) || status == Some(Status::Running) || status
                == Some(Status::Paused);
            &&& over || !live ==> after == before
            &&& !over && live ==> {
                &&& after.phase == (if status == Some(Status::Queued) {
                    Phase::Queued
                } else {
                    Phase::Running
                })
                &&& service.cancel_requested ==> after.wait_reason == Some(WaitReason::Draining)
                &&& !service.cancel_requested && status == Some(Status::Paused)
                    ==> after.wait_reason == Some(WaitReason::PageDemand)
                &&& after.sequence == before.sequence + (if after.phase == before.phase
                    && after.wait_reason == before.wait_reason {
                    0int
                } else {
                    1int
                })
                &&& after.task_id == before.task_id
                &&& after.processed_entries == before.processed_entries
                &&& after.processed_directories == before.processed_directories
                &&& after.issues == before.issues
            }
        }),
{
}

/// A report shows at once: what was counted, where there are counts, with the failure that was met
/// among the issues, and that the scan runs or how it ended. A scan that was asked to stop and runs on
/// is draining.
pub proof fn reports_are_shown(
    service: UsageServiceView,
    counts: Option<(u64, u64, IssuesView)>,
    failure: Option<IssueView>,
    terminal: Option<Phase>,
    at: Seq<char>,
)
    requires
        !service.closed,
        service.work is Some,
        service.work->0.phase == Phase::Queued || service.work->0.phase == Phase::Running,
        service.work->0.sequence < u64::MAX,
    ensures
        ({
            let before = service.work->0;
            let after = service.reported(counts, failure, terminal, at).work->0;
            let counted = counts->0;
            let issues = if counts is Some {
                counted.2
            } else {
                before.issues
            };
            &&& counts is Some ==> after.processed_entries == counted.0
                && after.processed_directories == counted.1
            &&& counts is None ==> after.processed_entries == before.processed_entries
                && after.processed_directories == before.processed_directories
            &&& failure is None ==> after.issues == issues
            &&& failure is Some ==> after.issues == issues.with(failure->0)
            &&& after.phase == (match terminal {
                Some(phase) => phase,
                None => Phase::Running,
            })
            &&& after.sequence == before.sequence + 1
            &&& after.observed_at == at
            &&& after.task_id == before.task_id
            &&& after.target_id == before.target_id
            &&& terminal is None && service.cancel_requested ==> after.wait_reason == Some(
                WaitReason::Draining,
            )
            &&& terminal is Some || !service.cancel_requested ==> after.wait_reason is None
        }),
{
}

/// Once a scan has ended, or the service was closed, a report changes nothing.
pub proof fn an_ended_scan_takes_no_reports(
    service: UsageServiceView,
    counts: Option<(u64, u64, IssuesView)>,
    failure: Option<IssueView>,
    terminal: Option<Phase>,
    at: Seq<char>,
)
    requires
        service.closed || service.work is None || service.work->0.phase == Phase::Completed
            || service.work->0.phase == Phase::Cancelled || service.work->0.phase == Phase::Failed,
    ensures
        service.reported(counts, failure, terminal, at) == service,
{
}

/// A task reports what its scan has counted so far. A failure is told once: it is not told again
/// with the next report.
pub proof fn a_failure_is_told_once(
    service: UsageServiceView,
    job: UsageJobView,
    terminal: Option<Phase>,
    time: TimeView,
)
    requires
        !service.closed,
        service.work is Some,
        service.work->0.phase == Phase::Queued || service.work->0.phase == Phase::Running,
        job.scan is Some,
    ensures
        ({
            let (after, left) = job.reported(service, terminal, time);
            let scan = job.scan->0;
            &&& after.work->0.processed_entries == scan.stats.processed_entries
            &&& after.work->0.processed_directories == scan.stats.processed_directories
            &&& job.failure is None ==> after.work->0.issues == scan.issues
            &&& job.failure is Some ==> after.work->0.issues == scan.issues.with(job.failure->0)
            &&& left.failure is None
            &&& left.scan == job.scan
            &&& left.root == job.root
            &&& left.limits == job.limits
        }),
{
}

/// A cancellation of a scan that goes on reaches its task, whichever way it waits, and is shown as
/// draining while the task is not at its end; under another id, and once the service was closed or
/// the work has ended, nothing changes.
pub proof fn a_cancellation_reaches_the_task<J>(desk: UsageDesk<J>, id: Seq<char>)
    requires
        desk.service.work is Some,
        desk.service.ticket is Some,
    ensures
        ({
            let after = desk.cancelled(id);
            let work = desk.service.work->0;
            let serial = desk.service.ticket->0.serial;
            let over = work.phase == Phase::Completed || work.phase == Phase::Failed || work.phase
                == Phase::Cancelled;
            let heard = !desk.service.closed && work.task_id == id && !over;
            &&& !heard ==> after == desk
            &&& heard ==> {
                &&& after.service.cancel_requested
                &&& after.scheduler == desk.scheduler.without_task(serial)
                &&& after.index == desk.index
                &&& after.scheduler.unfinished(serial) ==> after.service.work->0.wait_reason
                    == Some(WaitReason::Draining)
            }
        }),
{
}

/// How a scan ends shows in its work and at its root: a cancelled one as cancelled, a failed one as
/// failed and not read, one that ran out of resources as completed and partial, and any other as
/// completed with nothing to add.
pub proof fn the_end_of_a_scan_shows(status: Status)
    ensures
        job::ending(Status::Cancelled) == (
            Phase::Cancelled,
            Some(Reason::Cancelled),
            ScanState::Cancelled,
        ),
        job::ending(Status::Failed) == (Phase::Failed, Some(Reason::ReadError), ScanState::Failed),
        job::ending(Status::ResourceLimit) == (
            Phase::Completed,
            Some(Reason::ResourceLimit),
            ScanState::Settled,
        ),
        job::ending(Status::Completed) == (
            Phase::Completed,
            None::<Reason>,
            ScanState::Settled,
        ),
        job::ending(status).0 == Phase::Failed <==> status == Status::Failed,
        job::ending(status).1 is None ==> job::ending(status).2 == ScanState::Settled,
{
}

/// A scan that goes on yields its lane after every quantum; it fails only where its root could not be
/// read, and it is completed where it was cancelled or has read everything.
pub proof fn a_scan_yields_until_it_is_over(failed: bool)
    ensures
        job::quantum_step(ScanPhase::Running, failed) == JobStep::Yield,
        job::quantum_step(ScanPhase::Cancelled, failed) == JobStep::Completed,
        job::quantum_step(ScanPhase::Completed, true) == JobStep::Failed,
        job::quantum_step(ScanPhase::Completed, false) == JobStep::Completed,
{
}

/// A root is read unless a stop was asked for, before the source was called or meanwhile, or the
/// limits leave no room for a single directory. What the source gave is then what is read, and what
/// it could not give is why nothing is.
pub proof fn a_root_is_opened_where_it_may_be<C>(
    first: bool,
    limits: ScanLimits,
    opened: Result<C, FsIssue>,
    second: bool,
)
    ensures
        ({
            let room = limits.max_open_directories > 0 && limits.working_bytes >= 2144;
            let called = usage::root_opening(first, limits, Some((opened, second)));
            let uncalled = usage::root_opening(first, limits, None::<(Result<C, FsIssue>, bool)>);
            &&& called is Cancelled <==> first || room && second
            &&& called is Limited <==> !first && !room
            &&& called is Opened <==> !first && room && !second && opened is Ok
            &&& called is Opened ==> opened == Ok::<C, FsIssue>(called->Opened_0)
            &&& called is Failed ==> opened == Err::<C, FsIssue>(called->Failed_0)
            &&& uncalled is Limited <==> !first && !room
            &&& !(uncalled is Limited) ==> uncalled is Cancelled
        }),
{
}

/// A scan begins with its root and nothing else: the root's own sizes are all that is summed up, the
/// root is the one directory that was met, and where it is not read the sums give the reason. A root
/// that could not be opened for another reason than want of resources fails the scan.
pub proof fn a_scan_begins_with_its_root(
    root: ObservationView,
    id: Seq<char>,
    limits: ScanLimits,
    opening: OpeningView,
    key: FileIdentity,
)
    ensures
        ({
            let scan = ScannerView::begun(root, id, limits, opening);
            let frame = scan.stack[0];
            &&& scan.stack.len() == 1
            &&& scan.root_id == id
            &&& frame.id == id
            &&& frame.open <==> opening is Opened
            &&& frame.aggregate.logical.bytes == size_of(root, true)
            &&& frame.aggregate.allocated.bytes == size_of(root, false)
            &&& frame.aggregate.shared.dom() == Set::<FileIdentity>::empty()
            &&& opening is Cancelled ==> gives(frame.aggregate, Reason::Cancelled)
            &&& opening is Limited ==> gives(frame.aggregate, Reason::ResourceLimit)
            &&& opening is Failed ==> gives(frame.aggregate, reason_for(opening->Failed_0.code))
            &&& scan.visited.contains(key) <==> root.identity == Some(key)
            &&& scan.root_mount == root.mount
            &&& scan.root_open_failed <==> opening is Failed && opening->Failed_0.code
                != "RESOURCE_LIMIT"@
            &&& scan.issues == (match opening {
                OpeningView::Failed(issue) => IssuesView::none().with(issue),
                _ => IssuesView::none(),
            })
            &&& scan.limits == limits
            &&& scan.phase is Running
            &&& scan.revision == 0
            &&& !scan.unfit
            &&& scan.stats.processed_entries == 0
            &&& scan.stats.processed_directories == 1
            &&& scan.stats.peak_open_directories == (if opening is Opened {
                1int
            } else {
                0int
            })
        }),
{
    broadcast use vstd::set::group_set_axioms;

}

/// What a source answers counts, as it is, exactly where no stop was asked for, neither before the
/// source was called nor meanwhile.
pub proof fn an_answer_counts_unless_a_stop_was_asked_for(
    first: bool,
    answer: Result<Option<Observation>, FsIssue>,
    second: bool,
)
    ensures
        usage::heard_of(first, Some((answer, second))) is Stop <==> first || second,
        !first && !second ==> usage::heard_of(first, Some((answer, second))) == Heard::Reply(
            answer,
        ),
        usage::heard_of(first, None) is Stop,
{
}

/// How a quantum goes round: the source is asked and its answer is taken, and a directory that is to
/// be entered is opened and entered. Then it goes round again while it is to go on; else a scan that
/// is still running is announced, and the quantum is over.
pub proof fn a_quantum_goes_round(pending: bool, on: bool, going: bool)
    ensures
        usage::part_after(Part::Listen, pending, on, going) is Respond,
        pending ==> usage::part_after(Part::Respond, pending, on, going) is Open,
        usage::part_after(Part::Open, pending, on, going) is Enter,
        ({
            let after_answer = usage::part_after(Part::Respond, false, on, going);
            let after_entry = usage::part_after(Part::Enter, pending, on, going);
            &&& after_answer == after_entry
            &&& after_entry is Listen <==> on
            &&& after_entry is Announce <==> !on && going
            &&& after_entry is Over <==> !on && !going
        }),
        usage::part_after(Part::Announce, pending, on, going) is Over,
        usage::part_after(Part::Over, pending, on, going) is Over,
{
}

/// How a step of a scan goes: it is done with at once where the service was closed; else the root is
/// enrolled, and opened where it was not yet, the scan is measured, and how far it came is reported
/// before the step is over. A refusal ends it, and a summary that does not fit fails it unreported.
pub proof fn a_scan_is_reported_after_it_was_measured(
    phase: ScanPhase,
    failed: bool,
    root: bool,
    step: JobStep,
)
    ensures
        job::stage_after(Stage::Check, StageEnd::Closed(true)) == Stage::Over(JobStep::Completed),
        job::stage_after(Stage::Check, StageEnd::Closed(false)) is Enroll,
        job::stage_after(Stage::Enroll, StageEnd::Enrolled(root)) is Begin <==> root,
        job::stage_after(Stage::Enroll, StageEnd::Enrolled(root)) is Measure <==> !root,
        job::stage_after(Stage::Enroll, StageEnd::Refused(step)) == Stage::Over(step),
        job::stage_after(Stage::Begin, StageEnd::Begun) is Measure,
        job::stage_after(
            Stage::Measure,
            StageEnd::Measured { phase, failed, unfit: true },
        ) == Stage::Over(JobStep::Failed),
        ({
            let next = job::stage_after(
                Stage::Measure,
                StageEnd::Measured { phase, failed, unfit: false },
            );
            &&& next is Report
            &&& next->Report_0 is Yield <==> phase is Running
            &&& next->Report_0 is Failed <==> phase is Completed && failed
            &&& next->Report_0 is Completed <==> phase is Cancelled || phase is Completed && !failed
        }),
        job::stage_after(Stage::Report(step), StageEnd::Reported) == Stage::Over(step),
{
}

/// A root that is a directory is enrolled as the first of an empty index, whatever bytes its name is
/// made of, as long as the pool has room for it, and the task is left as it is. Where it cannot be
/// enrolled the task ends: with a failure where it is no directory, and else for want of resources.
pub proof fn a_root_is_enrolled(ground: Ground, root: ObservationView, cost: nat)
    requires
        ground.job.root == Some(root),
    ensures
        ({
            let (after, answer) = ground.enrolled(cost);
            let id = ground.index.prefix + "-"@ + text::decimal((ground.index.next + 1) as nat);
            let free = ground.index.records.dom() == Set::<Seq<char>>::empty()
                && root.raw_name.len() <= 765 && is_plain(root.raw_name) && text::utf8(
                ground.index.prefix,
            ).len() <= 128 && ground.index.next < u64::MAX && ground.pool.used + cost
                <= ground.pool.limit;
            &&& root.kind == Kind::Directory && free ==> {
                &&& answer == Ok::<Seq<char>, JobStep>(id)
                &&& after.index.records.contains_key(id)
                &&& after.index.records[id].key.parent_id is None
                &&& after.index.records[id].key.raw_name == root.raw_name
                &&& after.index.next == ground.index.next + 1
            }
            &&& answer is Ok ==> root.kind == Kind::Directory && after.job == ground.job
            &&& answer is Err ==> {
                &&& after.job.root is None
                &&& after.job.scan == ground.job.scan
                &&& after.job.failure == Some(
                    IssueView {
                        code: if root.kind == Kind::Directory {
                            "RESOURCE_LIMIT"@
                        } else {
                            "NOT_DIRECTORY"@
                        },
                        operation: "scanUsage"@,
                        scope: IssueScope::Root,
                        entry_id: None,
                        native_code: None,
                    },
                )
                &&& answer == Err::<Seq<char>, JobStep>(
                    if root.kind == Kind::Directory {
                        JobStep::ResourceLimit
                    } else {
                        JobStep::Failed
                    },
                )
                &&& after.index.records == ground.index.records
            }
        }),
{
    reveal_strlit("RESOURCE_LIMIT");
    reveal_strlit("NOT_DIRECTORY");
    assert("RESOURCE_LIMIT"@.len() != "NOT_DIRECTORY"@.len());
    if ground.index.records.dom() == Set::<Seq<char>>::empty() && root.raw_name.len() <= 765
        && is_plain(root.raw_name) && text::utf8(ground.index.prefix).len() <= 128
        && ground.index.next < u64::MAX && ground.pool.used + cost <= ground.pool.limit {
        let other = root.raw_name.push(0);
        assert(other.len() != root.raw_name.len());
        assert(ground.index.records =~= Map::empty());
        a_root_is_registered_once(
            ground.index,
            ground.pool,
            root.raw_name,
            other,
            Origin::Background,
            cost,
        );
    }
}

} // verus!
