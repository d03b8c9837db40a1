//! What the control plane is for: who may ask, which session is the current one, and which requests
//! are executed.
use vstd::prelude::*;

use crate::domain::controller;
use crate::domain::controller::{
    Answer, ContextView, ControlError, ControllerView, LedgerView, RequestView, ScopeView,
    SelectionView, TaskState,
};
use crate::domain::model::Phase;
use crate::text;

verus! {

/// The document of the main window connects once, under a nonce of its own: it gets the next epoch,
/// under which its requests are valid, and gets the same epoch again whenever it connects again.
/// Under another nonce nobody connects, and under another epoch or from another document no request
/// is valid.
pub proof fn a_document_connects_once(
    plane: ControllerView,
    nonce: Seq<char>,
    other: Seq<char>,
    stranger: ContextView,
    epoch: u64,
)
    requires
        plane.context.window == "main"@,
        plane.nonce is None,
        plane.epoch_serial < 9_007_199_254_740_991,
        nonce.len() > 0,
        text::utf8(nonce).len() <= 128,
        other.len() > 0,
        text::utf8(other).len() <= 128,
        other != nonce,
        stranger != plane.context,
        epoch != plane.epoch_serial + 1,
    ensures
        ({
            let (after, answer) = plane.connected(plane.context, nonce);
            let given = (plane.epoch_serial + 1) as u64;
            let expired = Err::<(), ControlError>(ControlError::ClientExpired);
            &&& plane.validated(plane.context, plane.epoch_serial, None) == expired
            &&& answer == Ok::<u64, ControlError>(given)
            &&& after.validated(plane.context, given, None) is Ok
            &&& after.validated(plane.context, epoch, None) == expired
            &&& after.validated(stranger, given, None) == expired
            &&& after.connected(plane.context, nonce) == (after, Ok::<u64, ControlError>(given))
            &&& after.connected(plane.context, other) == (
                after,
                Err::<u64, ControlError>(ControlError::ClientExpired),
            )
            &&& after.connected(stranger, nonce) == (
                after,
                Err::<u64, ControlError>(ControlError::ClientExpired),
            )
            &&& after.scope == plane.scope
            &&& after.token == plane.token
            &&& after.active_selection == plane.active_selection
        }),
{
}

/// Only the document of the main window connects, and only under a nonce of 1 to 128 bytes.
pub proof fn strangers_do_not_connect(plane: ControllerView, context: ContextView, nonce: Seq<char>)
    ensures
        context != plane.context || context.window != "main"@ ==> plane.connected(context, nonce)
            == (plane, Err::<u64, ControlError>(ControlError::ClientExpired)),
        context == plane.context && context.window == "main"@ && (nonce.len() == 0 || text::utf8(
            nonce,
        ).len() > 128) ==> plane.connected(context, nonce) == (
            plane,
            Err::<u64, ControlError>(ControlError::InvalidArgument),
        ),
{
}

/// Another document ends the session: its workers are asked to stop, the document before is not
/// heard any more, and the new one connects under an epoch of its own. The same document again
/// changes nothing.
pub proof fn another_document_starts_afresh(
    plane: ControllerView,
    context: ContextView,
    nonce: Seq<char>,
    epoch: u64,
    scope: Option<ScopeView>,
)
    requires
        context != plane.context,
        context.window == "main"@,
        plane.epoch_serial < 9_007_199_254_740_991,
        nonce.len() > 0,
        text::utf8(nonce).len() <= 128,
    ensures
        ({
            let after = plane.loaded(context);
            let (ready, answer) = after.connected(context, nonce);
            let expired = Err::<(), ControlError>(ControlError::ClientExpired);
            &&& plane.loaded(plane.context) == plane
            &&& after.scope is None
            &&& after.signalled.contains(plane.token)
            &&& after.validated(plane.context, epoch, scope) == expired
            &&& after.validated(context, epoch, scope) == expired
            &&& answer == Ok::<u64, ControlError>((plane.epoch_serial + 1) as u64)
            &&& ready.validated(plane.context, epoch, scope) == expired
            &&& ready.validated(context, plane.epoch_serial, None) == expired
            &&& ready.validated(context, (plane.epoch_serial + 1) as u64, None) is Ok
        }),
{
}

/// A root that was picked becomes the current session in its first generation: its requests are
/// valid, and the workers of the session before are asked to stop, which is closed to its requests.
/// While the picker is open no second one opens; once it has served, its ticket is of no use.
pub proof fn a_picked_root_becomes_the_session(
    plane: ControllerView,
    epoch: u64,
    session_id: Seq<char>,
    before: ScopeView,
)
    requires
        plane.wf(),
        plane.validated(plane.context, epoch, None) is Ok,
        plane.active_selection is None,
        plane.selection_serial < u64::MAX,
        before.session_id != session_id,
    ensures
        ({
            let (open, answer) = plane.picking(plane.context, epoch);
            let ticket = answer->Ok_0;
            let (after, result) = open.picked(ticket, session_id);
            let scope = ScopeView { session_id, generation: 1 };
            &&& answer is Ok
            &&& open.picking(plane.context, epoch) == (
                open,
                Err::<SelectionView, ControlError>(ControlError::ResourceLimit),
            )
            &&& open.scope == plane.scope
            &&& result == Ok::<ScopeView, ControlError>(scope)
            &&& after.scope == Some(scope)
            &&& after.validated(plane.context, epoch, Some(scope)) is Ok
            &&& after.validated(plane.context, epoch, Some(before)) == Err::<(), ControlError>(
                ControlError::SessionClosed,
            )
            &&& after.signalled.contains(plane.token)
            &&& !after.signalled.contains(after.token)
            &&& after.active_selection is None
            &&& after.picked(ticket, session_id) == (
                after,
                Err::<ScopeView, ControlError>(ControlError::ClientExpired),
            )
            &&& plane.selection_serial < u64::MAX - 2 ==> after.picking(
                plane.context,
                epoch,
            ).1 is Ok
        }),
{
}

/// A picker that was overtaken is released without effect: when the session was closed, refreshed or
/// replaced while it was open, what it picked is refused, the session stays as it is then, and the
/// next picker opens.
pub proof fn an_overtaken_picker_has_no_effect(
    plane: ControllerView,
    ticket: SelectionView,
    session_id: Seq<char>,
    scope: ScopeView,
)
    requires
        plane.active_selection == Some(ticket.serial),
        ticket.serial == plane.selection_serial,
        plane.selection_serial < u64::MAX,
    ensures
        ({
            let closed = plane.closed();
            let replaced = plane.replaced(scope);
            let refused = Err::<ScopeView, ControlError>(ControlError::ClientExpired);
            &&& closed.picked(ticket, session_id).1 == refused
            &&& closed.picked(ticket, session_id).0.scope is None
            &&& closed.picked(ticket, session_id).0.active_selection is None
            &&& replaced.picked(ticket, session_id).1 == refused
            &&& replaced.picked(ticket, session_id).0.scope == Some(scope)
            &&& replaced.picked(ticket, session_id).0.active_selection is None
            &&& replaced.picked(ticket, session_id).0.token == replaced.token
        }),
{
}

/// A picker is released by its own ticket alone, and only once.
pub proof fn a_picker_is_released_once(
    plane: ControllerView,
    ticket: SelectionView,
    stale: SelectionView,
)
    requires
        plane.active_selection == Some(ticket.serial),
        stale.serial != ticket.serial,
    ensures
        ({
            let (after, answer) = plane.dismissed(ticket);
            &&& answer is Ok
            &&& after.active_selection is None
            &&& after.scope == plane.scope
            &&& after.token == plane.token
            &&& after.dismissed(ticket) == (
                after,
                Err::<(), ControlError>(ControlError::ClientExpired),
            )
            &&& plane.dismissed(stale) == (
                plane,
                Err::<(), ControlError>(ControlError::ClientExpired),
            )
        }),
{
}

/// A refresh starts the next generation of the same session: it becomes the current scope, the one
/// before is stale, and its workers are asked to stop. Whoever expects another session or another
/// generation is refused, and nothing changes.
pub proof fn a_refresh_starts_the_next_generation(
    plane: ControllerView,
    epoch: u64,
    expected: ScopeView,
)
    requires
        plane.wf(),
        plane.validated(plane.context, epoch, None) is Ok,
        plane.scope is Some,
    ensures
        ({
            let now = plane.scope->0;
            let (after, answer) = plane.refreshed(expected);
            let next = ScopeView {
                session_id: now.session_id,
                generation: (now.generation + 1) as u64,
            };
            &&& expected.session_id != now.session_id ==> (after, answer) == (
                plane,
                Err::<ScopeView, ControlError>(ControlError::SessionClosed),
            )
            &&& expected.session_id == now.session_id && expected.generation != now.generation
                ==> (after, answer) == (
                plane,
                Err::<ScopeView, ControlError>(ControlError::StaleGeneration),
            )
            &&& expected == now && now.generation >= 9_007_199_254_740_991 ==> (after, answer) == (
                plane,
                Err::<ScopeView, ControlError>(ControlError::ResourceLimit),
            )
            &&& expected == now && now.generation < 9_007_199_254_740_991 ==> {
                &&& answer == Ok::<ScopeView, ControlError>(next)
                &&& after.validated(plane.context, epoch, Some(next)) is Ok
                &&& after.validated(plane.context, epoch, Some(now)) == Err::<(), ControlError>(
                    ControlError::StaleGeneration,
                )
                &&& after.signalled.contains(plane.token)
                &&& !after.signalled.contains(after.token)
            }
        }),
{
}

/// A closed session answers none of its requests, and its workers are asked to stop; requests that
/// need no session go on.
pub proof fn a_closed_session_answers_nothing(
    plane: ControllerView,
    epoch: u64,
    scope: ScopeView,
)
    requires
        plane.validated(plane.context, epoch, None) is Ok,
    ensures
        plane.closed().scope is None,
        plane.closed().signalled.contains(plane.token),
        plane.closed().validated(plane.context, epoch, Some(scope)) == Err::<(), ControlError>(
            ControlError::SessionClosed,
        ),
        plane.closed().validated(plane.context, epoch, None) is Ok,
        plane.closed().refreshed(scope) == (
            plane.closed(),
            Err::<ScopeView, ControlError>(ControlError::SessionClosed),
        ),
{
}

/// A scope is valid exactly where its session has an id of 1 to 128 bytes and its generation is
/// between 1 and the largest integer that the wire carries exactly.
pub proof fn valid_scopes(scope: ScopeView)
    ensures
        scope.valid() <==> scope.session_id.len() >= 1 && text::utf8(scope.session_id).len() <= 128
            && 1 <= scope.generation <= 9_007_199_254_740_991,
{
}

/// A task that goes on publishes every phase of its own scope, each under the next sequence. One that
/// was asked to stop, alone or with its session, publishes nothing but that it was cancelled. One
/// that has ended, and one of another scope, publishes nothing.
pub proof fn tasks_publish_until_they_end(
    task: TaskState,
    current: ScopeView,
    phase: Phase,
    signalled: bool,
)
    requires
        task.sequence < 9_007_199_254_740_991,
    ensures
        ({
            let after = task.published(current, phase, signalled);
            let over = task.phase == Phase::Completed || task.phase == Phase::Failed || task.phase
                == Phase::Cancelled;
            let stopping = task.cancel_requested || signalled;
            let publishes = current == task.scope@ && !over && (!stopping || phase
                == Phase::Cancelled);
            &&& task.publishes(current, phase, signalled) == publishes
            &&& publishes ==> after.phase == phase && after.sequence == task.sequence + 1
            &&& !publishes ==> after == task
            &&& after.scope == task.scope
            &&& after.cancel_requested == task.cancel_requested
        }),
{
}

/// Whether a request is remembered at a time: it is still running, or its result is younger than
/// the time to live.
pub open spec fn is_remembered<T>(request: RequestView<T>, now: u64, ttl_ms: u64) -> bool {
    request.result is None || ttl_ms > 0 && now < request.accepted_ms + ttl_ms
}

/// How many of some requests are still running.
pub open spec fn running<T>(requests: Seq<RequestView<T>>) -> nat
    decreases requests.len(),
{
    if requests.len() == 0 {
        0
    } else {
        running(requests.drop_last()) + if requests.last().result is None {
            1nat
        } else {
            0nat
        }
    }
}

proof fn lemma_live<T>(ledger: LedgerView<T>, now: u64)
    ensures
        forall|request: RequestView<T>| #[trigger]
            ledger.live(now).contains(request) <==> ledger.records.contains(request)
                && is_remembered(request, now, ledger.ttl_ms),
        running(ledger.live(now)) == running(ledger.records),
{
    let keep = |record: RequestView<T>| record.live(now, ledger.ttl_ms);
    assert(ledger.live(now) == ledger.records.filter(keep));
    lemma_filter(ledger.records, keep, now, ledger.ttl_ms);
}

proof fn lemma_filter<T>(
    requests: Seq<RequestView<T>>,
    keep: spec_fn(RequestView<T>) -> bool,
    now: u64,
    ttl_ms: u64,
)
    requires
        forall|request: RequestView<T>| #[trigger]
            keep(request) == is_remembered(request, now, ttl_ms),
    ensures
        forall|request: RequestView<T>| #[trigger]
            requests.filter(keep).contains(request) <==> requests.contains(request)
                && is_remembered(request, now, ttl_ms),
        running(requests.filter(keep)) == running(requests),
    decreases requests.len(),
{
    reveal(Seq::filter);
    if requests.len() > 0 {
        let head = requests.drop_last();
        let last = requests.last();
        lemma_filter(head, keep, now, ttl_ms);
        let kept = head.filter(keep);
        let all = requests.filter(keep);
        assert(keep(last) == is_remembered(last, now, ttl_ms));
        if keep(last) {
            assert(all == kept.push(last));
            assert(all.drop_last() =~= kept);
        }
        assert forall|request: RequestView<T>| #[trigger]
            all.contains(request) <==> requests.contains(request) && is_remembered(
            request,
            now,
            ttl_ms,
        ) by {
            if all.contains(request) {
                let i = choose|i: int| 0 <= i < all.len() && all[i] == request;
                if i < kept.len() {
                    assert(kept[i] == request);
                    assert(kept.contains(request));
                    let j = choose|j: int| 0 <= j < head.len() && head[j] == request;
                    assert(requests[j] == request);
                } else {
                    assert(requests[requests.len() - 1] == request);
                }
            }
            if requests.contains(request) && is_remembered(request, now, ttl_ms) {
                let i = choose|i: int| 0 <= i < requests.len() && requests[i] == request;
                if i < head.len() {
                    assert(head[i] == request);
                    assert(kept.contains(request));
                    let j = choose|j: int| 0 <= j < kept.len() && kept[j] == request;
                    assert(all[j] == request);
                } else {
                    assert(all[kept.len() as int] == request);
                }
            }
        }
    }
}

proof fn lemma_room<T>(requests: Seq<RequestView<T>>, max: nat)
    requires
        running(requests) < max,
    ensures
        controller::with_room(requests, max).len() < max,
    decreases requests.len(),
{
    if requests.len() >= max {
        let at = controller::first_completed(requests, 0);
        lemma_some_completed(requests, 0);
        lemma_running_bound(requests);
        lemma_running_remove(requests, at);
        lemma_room(requests.remove(at), max);
    }
}

proof fn lemma_some_completed<T>(requests: Seq<RequestView<T>>, from: int)
    requires
        0 <= from <= requests.len(),
    ensures
        from <= controller::first_completed(requests, from) <= requests.len(),
        controller::first_completed(requests, from) < requests.len() ==> requests[
        controller::first_completed(requests, from)].result is Some,
        controller::first_completed(requests, from) == requests.len() ==> forall|i: int|
            from <= i < requests.len() ==> (#[trigger] requests[i]).result is None,
    decreases requests.len() - from,
{
    if from < requests.len() && requests[from].result is None {
        lemma_some_completed(requests, from + 1);
    }
}

proof fn lemma_running_bound<T>(requests: Seq<RequestView<T>>)
    ensures
        running(requests) <= requests.len(),
        (forall|i: int| 0 <= i < requests.len() ==> (#[trigger] requests[i]).result is None)
            ==> running(requests) == requests.len(),
    decreases requests.len(),
{
    if requests.len() > 0 {
        let head = requests.drop_last();
        lemma_running_bound(head);
        if forall|i: int| 0 <= i < requests.len() ==> (#[trigger] requests[i]).result is None {
            assert forall|i: int| 0 <= i < head.len() implies (
            #[trigger] head[i]).result is None by {
                assert(head[i] == requests[i]);
            }
            assert(requests[requests.len() - 1].result is None);
        }
    }
}

proof fn lemma_running_remove<T>(requests: Seq<RequestView<T>>, at: int)
    ensures
        0 <= at < requests.len() && requests[at].result is Some ==> running(requests.remove(at))
            == running(requests),
    decreases requests.len(),
{
    if 0 <= at < requests.len() && requests[at].result is Some {
        let head = requests.drop_last();
        if at == requests.len() - 1 {
            assert(requests.remove(at) =~= head);
        } else {
            lemma_running_remove(head, at);
            assert(head[at] == requests[at]);
            assert(requests.remove(at).drop_last() =~= head.remove(at));
            assert(requests.remove(at).last() == requests.last());
        }
    }
}

/// A request with a number above all before is executed, whenever fewer requests are running than the
/// ledger has room for: results make room for it. It is remembered as running.
pub proof fn a_new_request_is_executed<T>(
    ledger: LedgerView<T>,
    number: u64,
    fingerprint: Seq<char>,
    now: u64,
)
    requires
        ledger.wf(),
        ledger.high_water < number <= 9_007_199_254_740_991,
        text::utf8(fingerprint).len() <= 1024,
        running(ledger.records) < ledger.max_records,
    ensures
        ({
            let (after, answer) = ledger.answered(number, fingerprint, now);
            &&& answer is New
            &&& after.high_water == number
            &&& after.records.len() > 0
            &&& after.records.last() == (RequestView::<T> {
                number,
                fingerprint,
                result: None,
                accepted_ms: now,
            })
            &&& after.records.len() <= ledger.max_records
        }),
{
    lemma_live(ledger, now);
    let live = ledger.live(now);
    if exists|at: int| controller::has_number(live, at, number) {
        let at = choose|at: int| controller::has_number(live, at, number);
        assert(live.contains(live[at]));
        let i = choose|i: int| 0 <= i < ledger.records.len() && ledger.records[i] == live[at];
        assert(ledger.records[i].number <= ledger.high_water);
    }
    lemma_room(live, ledger.max_records as nat);
}

/// Whether the numbers of requests grow.
pub open spec fn numbers_grow<T>(requests: Seq<RequestView<T>>) -> bool {
    forall|i: int, j: int|
        0 <= i < j < requests.len() ==> (#[trigger] requests[i]).number < (
        #[trigger] requests[j]).number
}

proof fn lemma_filter_grows<T>(
    requests: Seq<RequestView<T>>,
    keep: spec_fn(RequestView<T>) -> bool,
)
    requires
        numbers_grow(requests),
    ensures
        numbers_grow(requests.filter(keep)),
        forall|i: int|
            0 <= i < requests.filter(keep).len() ==> (#[trigger] requests.filter(keep)[i]).number
                <= requests.last().number,
    decreases requests.len(),
{
    reveal(Seq::filter);
    if requests.len() > 0 {
        let head = requests.drop_last();
        lemma_filter_grows(head, keep);
        if head.len() > 0 {
            assert(head.last() == requests[requests.len() - 2]);
            assert(requests[requests.len() - 2].number < requests[requests.len() - 1].number);
        }
    }
}

proof fn lemma_first_result<T>(requests: Seq<RequestView<T>>, from: int)
    requires
        0 <= from <= requests.len(),
    ensures
        ({
            let first = controller::first_completed(requests, from);
            &&& from <= first <= requests.len()
            &&& first < requests.len() ==> requests[first].result is Some
            &&& forall|k: int| from <= k < first ==> (#[trigger] requests[k]).result is None
        }),
    decreases requests.len() - from,
{
    if from < requests.len() && requests[from].result is None {
        lemma_first_result(requests, from + 1);
    }
}

proof fn lemma_room_within<T>(requests: Seq<RequestView<T>>, max: nat, request: RequestView<T>)
    ensures
        controller::with_room(requests, max).contains(request) ==> requests.contains(request),
    decreases requests.len(),
{
    let at = controller::first_completed(requests, 0);
    if requests.len() >= max && 0 <= at < requests.len() {
        let rest = requests.remove(at);
        lemma_room_within(rest, max, request);
        if rest.contains(request) {
            let i = choose|i: int| 0 <= i < rest.len() && rest[i] == request;
            assert(requests[if i < at {
                i
            } else {
                i + 1
            }] == request);
        }
    }
}

proof fn lemma_oldest_leave<T>(requests: Seq<RequestView<T>>, max: nat, i: int, j: int)
    requires
        numbers_grow(requests),
        0 <= i < j < requests.len(),
        requests[i].result is Some,
    ensures
        ({
            let after = controller::with_room(requests, max);
            &&& requests[j].result is None ==> after.contains(requests[j])
            &&& after.contains(requests[i]) ==> after.contains(requests[j])
            &&& !after.contains(requests[i]) ==> after.len() + 1 >= max
        }),
    decreases requests.len(),
{
    let at = controller::first_completed(requests, 0);
    lemma_first_result(requests, 0);
    if requests.len() >= max {
        assert(at <= i);
        let rest = requests.remove(at);
        lemma_room_size(rest, max);
        assert forall|k: int, l: int| 0 <= k < l < rest.len() implies (#[trigger] rest[k]).number
            < (#[trigger] rest[l]).number by {
            assert(rest[k] == requests[if k < at {
                k
            } else {
                k + 1
            }]);
            assert(rest[l] == requests[if l < at {
                l
            } else {
                l + 1
            }]);
        }
        assert(rest[j - 1] == requests[j]);
        if at < i {
            assert(rest[i - 1] == requests[i]);
            lemma_oldest_leave(rest, max, i - 1, j - 1);
        } else {
            lemma_room_within(rest, max, requests[i]);
            if rest.contains(requests[i]) {
                let k = choose|k: int| 0 <= k < rest.len() && rest[k] == requests[i];
                assert(rest[k] == requests[if k < at {
                    k
                } else {
                    k + 1
                }]);
            }
            if requests[j].result is None {
                lemma_running_stay(rest, max, j - 1);
            }
        }
    } else {
        assert(requests.contains(requests[i]) && requests.contains(requests[j]));
    }
}

proof fn lemma_room_size<T>(requests: Seq<RequestView<T>>, max: nat)
    ensures
        controller::with_room(requests, max).len() == requests.len() || controller::with_room(
            requests,
            max,
        ).len() + 1 >= max,
        requests.len() + 1 >= max ==> controller::with_room(requests, max).len() + 1 >= max,
    decreases requests.len(),
{
    let at = controller::first_completed(requests, 0);
    if requests.len() >= max && 0 <= at < requests.len() {
        lemma_room_size(requests.remove(at), max);
    }
}

proof fn lemma_running_stay<T>(requests: Seq<RequestView<T>>, max: nat, j: int)
    requires
        0 <= j < requests.len(),
        requests[j].result is None,
    ensures
        controller::with_room(requests, max).contains(requests[j]),
    decreases requests.len(),
{
    let at = controller::first_completed(requests, 0);
    lemma_first_result(requests, 0);
    if requests.len() >= max && at < requests.len() {
        let rest = requests.remove(at);
        if j < at {
            assert(rest[j] == requests[j]);
            lemma_running_stay(rest, max, j);
        } else {
            assert(rest[j - 1] == requests[j]);
            lemma_running_stay(rest, max, j - 1);
        }
    } else {
        assert(requests.contains(requests[j]));
    }
}

/// Where a new request needs room the oldest results make it: one that is younger stays as long as
/// an older one does, a request that is running stays, and none leaves before the ledger is full.
pub proof fn the_oldest_results_make_room<T>(
    ledger: LedgerView<T>,
    number: u64,
    fingerprint: Seq<char>,
    now: u64,
    older: RequestView<T>,
    younger: RequestView<T>,
)
    requires
        ledger.wf(),
        ledger.high_water < number <= 9_007_199_254_740_991,
        text::utf8(fingerprint).len() <= 1024,
        running(ledger.records) < ledger.max_records,
        ledger.records.contains(older),
        ledger.records.contains(younger),
        is_remembered(older, now, ledger.ttl_ms),
        is_remembered(younger, now, ledger.ttl_ms),
        older.number < younger.number,
        older.result is Some,
    ensures
        ({
            let after = ledger.answered(number, fingerprint, now).0.records;
            &&& after.contains(older) ==> after.contains(younger)
            &&& younger.result is None ==> after.contains(younger)
            &&& !after.contains(older) ==> after.len() == ledger.max_records
        }),
{
    a_new_request_is_executed(ledger, number, fingerprint, now);
    lemma_live(ledger, now);
    let live = ledger.live(now);
    let keep = |record: RequestView<T>| record.live(now, ledger.ttl_ms);
    lemma_filter_grows(ledger.records, keep);
    assert(live == ledger.records.filter(keep));
    assert(live.contains(older) && live.contains(younger));
    let i = choose|i: int| 0 <= i < live.len() && live[i] == older;
    let j = choose|j: int| 0 <= j < live.len() && live[j] == younger;
    if j < i {
        assert(live[j].number < live[i].number);
    }
    let max = ledger.max_records as nat;
    lemma_oldest_leave(live, max, i, j);
    let roomy = controller::with_room(live, max);
    let after = ledger.answered(number, fingerprint, now).0.records;
    let last = after.last();
    if exists|at: int| controller::has_number(live, at, number) {
        let at = choose|at: int| controller::has_number(live, at, number);
        assert(live.contains(live[at]));
        let k = choose|k: int| 0 <= k < ledger.records.len() && ledger.records[k] == live[at];
        assert(ledger.records[k].number <= ledger.high_water);
    }
    assert(after =~= roomy.push(last));
    assert forall|request: RequestView<T>| roomy.contains(request) implies #[trigger] after.contains(
        request,
    ) by {
        let k = choose|k: int| 0 <= k < roomy.len() && roomy[k] == request;
        assert(after[k] == request);
    }
    if after.contains(older) {
        let k = choose|k: int| 0 <= k < after.len() && after[k] == older;
        let m = choose|m: int| 0 <= m < ledger.records.len() && ledger.records[m] == older;
        assert(ledger.records[m].number <= ledger.high_water);
        assert(k < roomy.len());
        assert(roomy[k] == older);
    }
}

/// A request that is asked again is not executed again: while it runs the answer is that it is
/// pending, and as long as its result is remembered the answer is that result. Under the same number
/// nothing else may be asked, and a number that is neither new nor remembered has expired. None of
/// this forgets a request that is still remembered.
pub proof fn a_repeated_request_gets_its_result<T>(
    ledger: LedgerView<T>,
    at: int,
    number: u64,
    fingerprint: Seq<char>,
    now: u64,
)
    requires
        ledger.wf(),
        1 <= number <= 9_007_199_254_740_991,
        text::utf8(fingerprint).len() <= 1024,
        number <= ledger.high_water,
    ensures
        ({
            let (after, answer) = ledger.answered(number, fingerprint, now);
            let known = 0 <= at < ledger.records.len() && ledger.records[at].number == number;
            let request = ledger.records[at];
            let remembered = known && is_remembered(request, now, ledger.ttl_ms);
            &&& remembered && request.fingerprint == fingerprint ==> answer == (
            match request.result {
                Some(result) => Answer::Replay(result),
                None => Answer::Pending,
            })
            &&& remembered && request.fingerprint != fingerprint ==> answer == Answer::<T>::Refused(
                ControlError::InvalidArgument,
            )
            &&& remembered ==> after.records.contains(request)
            &&& known && !remembered ==> answer == Answer::<T>::Refused(
                ControlError::RequestExpired,
            )
            &&& (forall|i: int|
                0 <= i < ledger.records.len() ==> (#[trigger] ledger.records[i]).number != number)
                ==> answer == Answer::<T>::Refused(ControlError::RequestExpired)
            &&& after.high_water == ledger.high_water
        }),
{
    lemma_live(ledger, now);
    let live = ledger.live(now);
    if 0 <= at < ledger.records.len() && ledger.records[at].number == number {
        let request = ledger.records[at];
        assert(ledger.records.contains(request));
        assert forall|i: int| 0 <= i < live.len() && (#[trigger] live[i]).number == number implies
            live[i] == request by {
            assert(live.contains(live[i]));
            let j = choose|j: int| 0 <= j < ledger.records.len() && ledger.records[j] == live[i];
            if j < at {
                assert(ledger.records[j].number < ledger.records[at].number);
            } else if at < j {
                assert(ledger.records[at].number < ledger.records[j].number);
            }
        }
        if is_remembered(request, now, ledger.ttl_ms) {
            assert(live.contains(request));
            let i = choose|i: int| 0 <= i < live.len() && live[i] == request;
            assert(controller::has_number(live, i, number));
        } else if exists|i: int| controller::has_number(live, i, number) {
            let i = choose|i: int| controller::has_number(live, i, number);
            assert(live[i] == request);
            assert(live.contains(live[i]));
        }
    }
    if forall|i: int|
        0 <= i < ledger.records.len() ==> (#[trigger] ledger.records[i]).number != number {
        if exists|i: int| controller::has_number(live, i, number) {
            let i = choose|i: int| controller::has_number(live, i, number);
            assert(live.contains(live[i]));
            let j = choose|j: int| 0 <= j < ledger.records.len() && ledger.records[j] == live[i];
            assert(ledger.records[j].number == number);
        }
    }
}

/// Numbers below one or above what the wire carries exactly are refused, and so is a fingerprint of
/// more than 1024 bytes; then nothing changes.
pub proof fn malformed_requests_are_refused<T>(
    ledger: LedgerView<T>,
    number: u64,
    fingerprint: Seq<char>,
    now: u64,
)
    ensures
        number == 0 || number > 9_007_199_254_740_991 || text::utf8(fingerprint).len() > 1024
            ==> ledger.answered(number, fingerprint, now) == (
            ledger,
            Answer::<T>::Refused(ControlError::InvalidArgument),
        ),
{
}

/// The result of a request is the one that it was completed with first.
pub proof fn a_result_is_kept_for_its_request<T>(
    ledger: LedgerView<T>,
    at: int,
    result: T,
    other: int,
)
    requires
        ledger.wf(),
        0 <= at < ledger.records.len(),
        0 <= other < ledger.records.len(),
        other != at,
    ensures
        ({
            let after = ledger.completed(ledger.records[at].number, result);
            &&& after.records.len() == ledger.records.len()
            &&& after.records[at].result == (if ledger.records[at].result is Some {
                ledger.records[at].result
            } else {
                Some(result)
            })
            &&& after.records[at].number == ledger.records[at].number
            &&& after.records[at].fingerprint == ledger.records[at].fingerprint
            &&& after.records[at].accepted_ms == ledger.records[at].accepted_ms
            &&& after.records[other] == ledger.records[other]
            &&& after.high_water == ledger.high_water
        }),
{
    let number = ledger.records[at].number;
    assert(controller::has_number(ledger.records, at, number));
    let found = choose|found: int| controller::has_number(ledger.records, found, number);
    if found < at {
        assert(ledger.records[found].number < ledger.records[at].number);
    } else if at < found {
        assert(ledger.records[at].number < ledger.records[found].number);
    }
}

} // verus!
