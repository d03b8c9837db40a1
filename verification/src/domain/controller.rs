//! Pure control plane. Native window and document contexts must be provided by the
//! trusted command boundary, never deserialized from frontend arguments.
use std::sync::atomic::{AtomicBool, Ordering};
use std::sync::Arc;

use vstd::prelude::*;

use crate::domain::model;
use crate::domain::model::{Phase, Value};
use crate::text;
use crate::text::{byte_len, same_text};

verus! {

/// A flag that asks the workers who share it to stop. The flag may change at any time, so a
/// read of it says nothing lasting; its number tells tokens apart.
pub struct Cancellation {
    flag: Arc<AtomicBool>,
    serial: Ghost<nat>,
}

impl Cancellation {
    /// Which token this is, among those of one owner.
    pub closed spec fn serial(&self) -> nat {
        self.serial@
    }

    fn numbered(serial: Ghost<nat>) -> (token: Self)
        ensures
            token.serial() == serial@,
            token.is_new(),
    {
        Cancellation { flag: Arc::new(AtomicBool::new(false)), serial }
    }

    /// Whether the token is what making a token gives: a flag that was made clear.
    pub closed spec fn is_new(&self) -> bool {
        call_ensures(AtomicBool::new, (false,), *self.flag)
    }

    /// Whether a stop was asked for through this token: its flag was set. All clones of a token
    /// share the flag.
    pub closed spec fn asked(&self) -> bool {
        call_ensures(AtomicBool::store, (&*self.flag, true, Ordering::Release), ())
    }

    /// Whether this is an answer that reading the flag gives. Another holder of the token may ask
    /// for a stop at any moment, so one read may tell otherwise than the next.
    pub closed spec fn tells(&self, answer: bool) -> bool {
        call_ensures(AtomicBool::load, (&*self.flag, Ordering::Acquire), answer)
    }

    /// Whether a stop was asked for, by what the flag tells now.
    pub fn is_cancelled(&self) -> (answer: bool)
        ensures
            self.tells(answer),
    {
        self.flag.load(Ordering::Acquire)
    }

    /// Asks every holder of the token to stop.
    pub fn cancel(&self)
        ensures
            self.asked(),
    {
        self.flag.store(true, Ordering::Release);
    }
}

impl Default for Cancellation {
    fn default() -> (token: Self)
        ensures
            token.serial() == 0,
            token.is_new(),
    {
        Cancellation::numbered(Ghost(0))
    }
}

impl Clone for Cancellation {
    fn clone(&self) -> (token: Self)
        ensures
            token == *self,
    {
        Cancellation { flag: self.flag.clone(), serial: self.serial }
    }
}

/// The largest integer that the wire protocol can carry exactly.
pub const MAX_SAFE_INTEGER: u64 = 9_007_199_254_740_991;

/// Why a control request was refused.
#[derive(Debug, Clone, Copy, PartialEq, Eq, Structural)]
pub enum ControlError {
    ClientExpired,
    InvalidArgument,
    RequestExpired,
    StaleGeneration,
    SessionClosed,
    ResourceLimit,
}

/// The native window and document that a request came from.
#[derive(Debug, PartialEq, Eq)]
pub struct NativeContext {
    pub window: String,
    pub document: u64,
}

/// What a native context says.
#[verifier::ext_equal]
pub struct ContextView {
    pub window: Seq<char>,
    pub document: u64,
}

impl View for NativeContext {
    type V = ContextView;

    open spec fn view(&self) -> ContextView {
        ContextView { window: self.window@, document: self.document }
    }
}

impl Value for NativeContext {
    fn copy(&self) -> (other: Self) {
        NativeContext { window: self.window.clone(), document: self.document }
    }

    fn same(&self, other: &Self) -> (same: bool) {
        same_text(self.window.as_str(), other.window.as_str()) && self.document == other.document
    }
}

impl Clone for NativeContext {
    fn clone(&self) -> (other: Self)
        ensures
            other@ == self@,
    {
        self.copy()
    }
}

/// One generation of one session.
#[derive(Debug, PartialEq, Eq)]
pub struct Scope {
    pub session_id: String,
    pub generation: u64,
}

/// What a scope says.
#[verifier::ext_equal]
pub struct ScopeView {
    pub session_id: Seq<char>,
    pub generation: u64,
}

impl View for Scope {
    type V = ScopeView;

    open spec fn view(&self) -> ScopeView {
        ScopeView { session_id: self.session_id@, generation: self.generation }
    }
}

impl Value for Scope {
    fn copy(&self) -> (other: Self) {
        Scope { session_id: self.session_id.clone(), generation: self.generation }
    }

    fn same(&self, other: &Self) -> (same: bool) {
        same_text(self.session_id.as_str(), other.session_id.as_str()) && self.generation
            == other.generation
    }
}

impl Clone for Scope {
    fn clone(&self) -> (other: Self)
        ensures
            other@ == self@,
    {
        self.copy()
    }
}

impl ScopeView {
    /// A session id of at most 128 bytes and a generation that the wire can carry.
    pub open spec fn valid(self) -> bool {
        &&& self.session_id.len() > 0
        &&& text::utf8(self.session_id).len() <= 128
        &&& 0 < self.generation <= MAX_SAFE_INTEGER
    }
}

impl Scope {
    /// Whether the session id and the generation are within the protocol's bounds.
    pub fn is_valid(&self) -> (valid: bool)
        ensures
            valid == self@.valid(),
    {
        !self.session_id.as_str().is_empty() && byte_len(self.session_id.as_str()) <= 128
            && self.generation != 0 && self.generation <= MAX_SAFE_INTEGER
    }
}

/// The content of an optional scope.
pub open spec fn optional_scope(scope: Option<Scope>) -> Option<ScopeView> {
    match scope {
        Some(scope) => Some(scope@),
        None => None,
    }
}

/// What becomes of a request.
#[derive(Debug, PartialEq, Eq)]
pub enum Admission<T> {
    New,
    Pending,
    Replay(T),
}

#[derive(Debug)]
struct RequestRecord<T> {
    number: u64,
    fingerprint: String,
    result: Option<T>,
    accepted_ms: u64,
}

/// One request that was admitted.
pub struct RequestView<T> {
    pub number: u64,
    pub fingerprint: Seq<char>,
    pub result: Option<T>,
    pub accepted_ms: u64,
}

impl<T> View for RequestRecord<T> {
    type V = RequestView<T>;

    closed spec fn view(&self) -> RequestView<T> {
        RequestView {
            number: self.number,
            fingerprint: self.fingerprint@,
            result: self.result,
            accepted_ms: self.accepted_ms,
        }
    }
}

/// What `now` is past `then`, or zero.
pub open spec fn elapsed(now: u64, then: u64) -> int {
    if now >= then {
        now - then
    } else {
        0
    }
}

impl<T> RequestView<T> {
    /// Pending requests live on; completed ones live for `ttl_ms`.
    pub open spec fn live(self, now: u64, ttl_ms: u64) -> bool {
        self.result is None || elapsed(now, self.accepted_ms) < ttl_ms
    }
}

/// What a ledger answers.
pub enum Answer<T> {
    Refused(ControlError),
    New,
    Pending,
    Replay(T),
}

/// The admitted requests that are remembered, in the order of their numbers, and the largest
/// number that was ever admitted.
#[verifier::ext_equal]
pub struct LedgerView<T> {
    pub records: Seq<RequestView<T>>,
    pub high_water: u64,
    pub max_records: usize,
    pub ttl_ms: u64,
}

/// Where the first completed request stands at or after `from`.
pub open spec fn first_completed<T>(records: Seq<RequestView<T>>, from: int) -> int
    decreases records.len() - from,
{
    if from < 0 || from >= records.len() {
        records.len() as int
    } else if records[from].result is Some {
        from
    } else {
        first_completed(records, from + 1)
    }
}

/// Completed requests leave, the oldest first, until there is room for one more.
pub open spec fn with_room<T>(records: Seq<RequestView<T>>, max_records: nat) -> Seq<
    RequestView<T>,
>
    decreases records.len(),
{
    let at = first_completed(records, 0);
    if records.len() < max_records || !(0 <= at < records.len()) {
        records
    } else {
        with_room(records.remove(at), max_records)
    }
}

/// Where the request with this number stands.
pub open spec fn has_number<T>(records: Seq<RequestView<T>>, at: int, number: u64) -> bool {
    0 <= at < records.len() && records[at].number == number
}

impl<T> LedgerView<T> {
    /// The numbers grow, and none is above the high-water mark.
    pub open spec fn wf(self) -> bool {
        &&& forall|i: int, j: int|
            0 <= i < j < self.records.len() ==> (#[trigger] self.records[i]).number < (
            #[trigger] self.records[j]).number
        &&& forall|i: int|
            0 <= i < self.records.len() ==> (#[trigger] self.records[i]).number <= self.high_water
    }

    /// The requests that have not expired.
    pub open spec fn live(self, now: u64) -> Seq<RequestView<T>> {
        self.records.filter(|record: RequestView<T>| record.live(now, self.ttl_ms))
    }

    /// What the ledger answers to a request, and what it is afterwards.
    pub open spec fn answered(self, number: u64, fingerprint: Seq<char>, now: u64) -> (
        LedgerView<T>,
        Answer<T>,
    ) {
        if number == 0 || number > MAX_SAFE_INTEGER || text::utf8(fingerprint).len() > 1024 {
            (self, Answer::Refused(ControlError::InvalidArgument))
        } else {
            let live = LedgerView { records: self.live(now), ..self };
            if exists|at: int| has_number(live.records, at, number) {
                let record = live.records[choose|at: int| has_number(live.records, at, number)];
                (
                    live,
                    if record.fingerprint != fingerprint {
                        Answer::Refused(ControlError::InvalidArgument)
                    } else {
                        match record.result {
                            Some(result) => Answer::Replay(result),
                            None => Answer::Pending,
                        }
                    },
                )
            } else if number <= self.high_water {
                (live, Answer::Refused(ControlError::RequestExpired))
            } else {
                let records = with_room(live.records, self.max_records as nat);
                if records.len() >= self.max_records {
                    (
                        LedgerView { records, ..self },
                        Answer::Refused(ControlError::ResourceLimit),
                    )
                } else {
                    let record = RequestView {
                        number,
                        fingerprint,
                        result: None,
                        accepted_ms: now,
                    };
                    (
                        LedgerView { records: records.push(record), high_water: number, ..self },
                        Answer::New,
                    )
                }
            }
        }
    }
}

impl<T> LedgerView<T> {
    /// The ledger after a request was completed, if it is remembered. The first result stays.
    pub open spec fn completed(self, number: u64, result: T) -> LedgerView<T> {
        if exists|at: int| has_number(self.records, at, number) {
            let at = choose|at: int| has_number(self.records, at, number);
            LedgerView {
                records: self.records.update(
                    at,
                    RequestView {
                        result: match self.records[at].result {
                            Some(first) => Some(first),
                            None => Some(result),
                        },
                        ..self.records[at]
                    },
                ),
                ..self
            }
        } else {
            self
        }
    }
}

/// Bounded completed results and a high-water mark prevent expired requests from executing
/// again. Pending requests are never evicted to make room for new work.
pub struct RequestLedger<T> {
    records: Vec<RequestRecord<T>>,
    high_water: u64,
    max_records: usize,
    ttl_ms: u64,
}

impl<T> View for RequestLedger<T> {
    type V = LedgerView<T>;

    closed spec fn view(&self) -> LedgerView<T> {
        LedgerView {
            records: model::views(self.records@),
            high_water: self.high_water,
            max_records: self.max_records,
            ttl_ms: self.ttl_ms,
        }
    }
}

proof fn lemma_filter_push<T>(
    records: Seq<RequestView<T>>,
    i: int,
    keep: spec_fn(RequestView<T>) -> bool,
)
    requires
        0 <= i < records.len(),
    ensures
        records.take(i + 1).filter(keep) == (if keep(records[i]) {
            records.take(i).filter(keep).push(records[i])
        } else {
            records.take(i).filter(keep)
        }),
{
    reveal(Seq::filter);
    assert(records.take(i + 1).drop_last() =~= records.take(i));
}

proof fn lemma_filter_increasing<T>(
    records: Seq<RequestView<T>>,
    keep: spec_fn(RequestView<T>) -> bool,
    high_water: u64,
)
    requires
        forall|i: int, j: int|
            0 <= i < j < records.len() ==> (#[trigger] records[i]).number < (
            #[trigger] records[j]).number,
        forall|i: int|
            0 <= i < records.len() ==> (#[trigger] records[i]).number <= high_water,
    ensures
        forall|i: int, j: int|
            0 <= i < j < records.filter(keep).len() ==> (#[trigger] records.filter(
                keep,
            )[i]).number < (#[trigger] records.filter(keep)[j]).number,
        forall|i: int|
            0 <= i < records.filter(keep).len() ==> (#[trigger] records.filter(keep)[i]).number
                <= high_water,
        forall|i: int|
            0 <= i < records.filter(keep).len() ==> records.contains(
                #[trigger] records.filter(keep)[i],
            ),
    decreases records.len(),
{
    reveal(Seq::filter);
    if records.len() > 0 {
        let head = records.drop_last();
        let kept = head.filter(keep);
        lemma_filter_increasing(head, keep, high_water);
        assert forall|i: int| 0 <= i < kept.len() implies (#[trigger] kept[i]).number
            < records.last().number && records.contains(kept[i]) by {
            let j = choose|j: int| 0 <= j < head.len() && head[j] == kept[i];
            assert(records[j] == kept[i]);
            assert(records[j].number < records[records.len() - 1].number);
        }
        assert(records.contains(records[records.len() - 1]));
        assert forall|i: int| 0 <= i < records.filter(keep).len() implies records.contains(
            #[trigger] records.filter(keep)[i],
        ) by {
            if i < kept.len() {
                assert(records.filter(keep)[i] == kept[i]);
            }
        }
    }
}

proof fn lemma_first_completed<T>(records: Seq<RequestView<T>>, from: int)
    requires
        0 <= from <= records.len(),
    ensures
        from <= first_completed(records, from) <= records.len(),
        first_completed(records, from) < records.len() ==> records[first_completed(
            records,
            from,
        )].result is Some,
        forall|i: int|
            from <= i < first_completed(records, from) ==> (#[trigger] records[i]).result is None,
    decreases records.len() - from,
{
    if from < records.len() && records[from].result is None {
        lemma_first_completed(records, from + 1);
    }
}

impl<T: Clone> RequestLedger<T> {
    /// The ledger's books are in order.
    pub open spec fn wf(&self) -> bool {
        self@.wf()
    }

    /// An empty ledger.
    pub fn new(max_records: usize, ttl_ms: u64) -> (ledger: Self)
        ensures
            ledger.wf(),
            ledger@ == (LedgerView::<T> {
                records: Seq::empty(),
                high_water: 0,
                max_records,
                ttl_ms,
            }),
    {
        let ledger = RequestLedger { records: Vec::new(), high_water: 0, max_records, ttl_ms };
        assert(ledger@.records =~= Seq::<RequestView<T>>::empty());
        ledger
    }

    fn drop_expired(&mut self, now: u64)
        requires
            old(self).wf(),
        ensures
            final(self).wf(),
            final(self)@ == (LedgerView { records: old(self)@.live(now), ..old(self)@ }),
    {
        let ghost before = self@;
        let ghost all = before.records;
        let ttl_ms = self.ttl_ms;
        let ghost keep = |record: RequestView<T>| record.live(now, ttl_ms);
        let ghost mut seen: int = 0;
        let mut i: usize = 0;
        proof {
            reveal(Seq::filter);
            assert(all.take(0) =~= Seq::<RequestView<T>>::empty());
            assert(all.take(0).filter(keep) =~= Seq::<RequestView<T>>::empty());
            assert(self@.records =~= all.take(0).filter(keep) + all.skip(0));
        }
        while i < self.records.len()
            invariant
                all == before.records,
                ttl_ms == before.ttl_ms,
                keep == (|record: RequestView<T>| record.live(now, ttl_ms)),
                0 <= seen <= all.len(),
                self@ == (LedgerView { records: self@.records, ..before }),
                self.ttl_ms == ttl_ms,
                self@.records == all.take(seen).filter(keep) + all.skip(seen),
                i == all.take(seen).filter(keep).len(),
            decreases all.len() - seen,
        {
            let ghost records = self.records@;
            assert(model::views(records).len() == records.len());
            assert(self@.records[i as int] == all[seen]);
            assert(records[i as int]@ == all[seen]);
            let live = self.records[i].result.is_none() || now.saturating_sub(
                self.records[i].accepted_ms,
            ) < ttl_ms;
            proof {
                lemma_filter_push(all, seen, keep);
            }
            if live {
                i = i + 1;
                assert(self@.records =~= all.take(seen + 1).filter(keep) + all.skip(seen + 1));
            } else {
                self.records.remove(i);
                assert(model::views(self.records@) =~= model::views(records).remove(i as int));
                assert(self@.records =~= all.take(seen + 1).filter(keep) + all.skip(seen + 1));
            }
            proof {
                seen = seen + 1;
            }
        }
        proof {
            assert(model::views(self.records@).len() == self.records@.len());
            assert(seen == all.len());
            assert(all.take(seen) =~= all);
            assert(self@.records =~= all.filter(keep));
            lemma_filter_increasing(all, keep, before.high_water);
            assert(before.live(now) == all.filter(keep));
        }
    }

    fn find(&self, number: u64) -> (at: Option<usize>)
        requires
            self.wf(),
        ensures
            match at {
                Some(at) => {
                    &&& has_number(self@.records, at as int, number)
                    &&& at < self.records@.len()
                    &&& forall|j: int| has_number(self@.records, j, number) ==> j == at
                },
                None => !exists|at: int| has_number(self@.records, at, number),
            },
    {
        assert(self@.records.len() == self.records@.len());
        let mut i: usize = 0;
        while i < self.records.len()
            invariant
                i <= self.records.len(),
                self.wf(),
                self@.records.len() == self.records@.len(),
                forall|j: int| has_number(self@.records, j, number) ==> j >= i,
            decreases self.records.len() - i,
        {
            assert(self@.records[i as int] == self.records@[i as int]@);
            if self.records[i].number == number {
                assert(has_number(self@.records, i as int, number));
                assert forall|j: int| has_number(self@.records, j, number) implies j == i by {
                    if j > i {
                        assert(self@.records[i as int].number < self@.records[j].number);
                    }
                }
                return Some(i);
            }
            i = i + 1;
        }
        None
    }

    /// Decides whether a request is new, still running, or to be answered with the result that it
    /// had before; a number that is neither remembered nor new is refused.
    pub fn admission(&mut self, number: u64, fingerprint: &str, now: u64) -> (result: Result<
        Admission<T>,
        ControlError,
    >)
        requires
            old(self).wf(),
        ensures
            final(self).wf(),
            final(self)@ == old(self)@.answered(number, fingerprint@, now).0,
            match old(self)@.answered(number, fingerprint@, now).1 {
                Answer::Refused(error) => result == Err::<Admission<T>, ControlError>(error),
                Answer::New => result == Ok::<Admission<T>, ControlError>(Admission::New),
                Answer::Pending => result == Ok::<Admission<T>, ControlError>(Admission::Pending),
                Answer::Replay(value) => result matches Ok(Admission::Replay(copy)) && cloned(
                    value,
                    copy,
                ),
            },
    {
        if number == 0 || number > MAX_SAFE_INTEGER || byte_len(fingerprint) > 1024 {
            return Err(ControlError::InvalidArgument);
        }
        let ghost before = self@;
        self.drop_expired(now);
        let ghost live = self@;
        assert(self@.records.len() == self.records@.len());
        if let Some(at) = self.find(number) {
            assert(has_number(live.records, at as int, number));
            assert((choose|at: int| has_number(live.records, at, number)) == at);
            let record = &self.records[at];
            assert(live.records[at as int] == record@);
            if !same_text(record.fingerprint.as_str(), fingerprint) {
                return Err(ControlError::InvalidArgument);
            }
            return Ok(
                match &record.result {
                    Some(result) => Admission::Replay(result.clone()),
                    None => Admission::Pending,
                },
            );
        }
        if number <= self.high_water {
            return Err(ControlError::RequestExpired);
        }
        while self.records.len() >= self.max_records
            invariant
                self.wf(),
                before == old(self)@,
                before.high_water == live.high_water,
                self.max_records == before.max_records,
                self@ == (LedgerView { records: self@.records, ..live }),
                with_room(self@.records, before.max_records as nat) == with_room(
                    live.records,
                    before.max_records as nat,
                ),
                live == (LedgerView { records: before.live(now), ..before }),
                !exists|at: int| has_number(live.records, at, number),
                number > live.high_water,
                before.answered(number, fingerprint@, now) == ({
                    let records = with_room(live.records, before.max_records as nat);
                    if records.len() >= before.max_records {
                        (
                            LedgerView { records, ..before },
                            Answer::<T>::Refused(ControlError::ResourceLimit),
                        )
                    } else {
                        (
                            LedgerView {
                                records: records.push(
                                    RequestView {
                                        number,
                                        fingerprint: fingerprint@,
                                        result: None,
                                        accepted_ms: now,
                                    },
                                ),
                                high_water: number,
                                ..before
                            },
                            Answer::New,
                        )
                    }
                }),
            decreases self.records.len(),
        {
            let ghost records = self@.records;
            assert(records.len() == self.records@.len());
            let mut at: usize = 0;
            while at < self.records.len() && self.records[at].result.is_none()
                invariant
                    at <= self.records.len(),
                    records == model::views(self.records@),
                    records.len() == self.records@.len(),
                    first_completed(records, 0) == first_completed(records, at as int),
                decreases self.records.len() - at,
            {
                assert(records[at as int] == self.records@[at as int]@);
                at = at + 1;
            }
            if at == self.records.len() {
                return Err(ControlError::ResourceLimit);
            }
            assert(records[at as int] == self.records@[at as int]@);
            assert(first_completed(records, 0) == at);
            let ghost stored = self.records@;
            self.records.remove(at);
            assert(model::views(self.records@) =~= model::views(stored).remove(at as int));
        }
        assert(self@.records.len() == self.records@.len());
        self.high_water = number;
        let record = RequestRecord {
            number,
            fingerprint: fingerprint.to_owned(),
            result: None,
            accepted_ms: now,
        };
        let ghost shown = record@;
        let ghost stored = self.records@;
        self.records.push(record);
        assert(model::views(self.records@) =~= model::views(stored).push(shown));
        assert(with_room(model::views(stored), before.max_records as nat) == model::views(stored));
        Ok(Admission::New)
    }

    /// Stores the result of a pending request. The first result stays.
    pub fn complete(&mut self, number: u64, result: T) -> (done: Result<(), ControlError>)
        requires
            old(self).wf(),
        ensures
            final(self).wf(),
            done is Err <==> !exists|at: int| has_number(old(self)@.records, at, number),
            done is Err ==> done == Err::<(), ControlError>(ControlError::RequestExpired),
            final(self)@ == old(self)@.completed(number, result),
    {
        let ghost before = self@;
        match self.find(number) {
            Some(at) => {
                let ghost stored = self.records@;
                assert(before.records[at as int] == stored[at as int]@);
                if self.records[at].result.is_none() {
                    let record = &mut self.records[at];
                    record.result = Some(result);
                }
                proof {
                    let shown = RequestView {
                        result: match before.records[at as int].result {
                            Some(first) => Some(first),
                            None => Some(result),
                        },
                        ..before.records[at as int]
                    };
                    assert(self@.records =~= before.records.update(at as int, shown));
                }
                Ok(())
            },
            None => Err(ControlError::RequestExpired),
        }
    }
}

/// A number at or below the high-water mark is never answered as new: no request is executed
/// twice, whether its record is still there or has expired.
pub proof fn requests_are_never_executed_again<T>(
    ledger: LedgerView<T>,
    number: u64,
    fingerprint: Seq<char>,
    now: u64,
)
    requires
        ledger.wf(),
        number <= ledger.high_water,
    ensures
        !(ledger.answered(number, fingerprint, now).1 is New),
        ledger.answered(number, fingerprint, now).0.high_water == ledger.high_water,
{
}

proof fn lemma_with_room_keeps_pending<T>(
    records: Seq<RequestView<T>>,
    max_records: nat,
    record: RequestView<T>,
)
    requires
        records.contains(record),
        record.result is None,
    ensures
        with_room(records, max_records).contains(record),
    decreases records.len(),
{
    let at = first_completed(records, 0);
    lemma_first_completed(records, 0);
    if records.len() >= max_records && at < records.len() {
        let i = choose|i: int| 0 <= i < records.len() && records[i] == record;
        let next = records.remove(at);
        let j = if i < at { i } else { i - 1 };
        assert(next[j] == record);
        lemma_with_room_keeps_pending(next, max_records, record);
    }
}

proof fn lemma_filter_keeps<T>(
    records: Seq<RequestView<T>>,
    keep: spec_fn(RequestView<T>) -> bool,
    record: RequestView<T>,
)
    requires
        records.contains(record),
        keep(record),
    ensures
        records.filter(keep).contains(record),
    decreases records.len(),
{
    reveal(Seq::filter);
    let i = choose|i: int| 0 <= i < records.len() && records[i] == record;
    let head = records.drop_last();
    if i == records.len() - 1 {
        let kept = head.filter(keep).push(record);
        assert(kept[kept.len() - 1] == record);
    } else {
        assert(head[i] == record);
        lemma_filter_keeps(head, keep, record);
        let j = choose|j: int| 0 <= j < head.filter(keep).len() && head.filter(keep)[j] == record;
        assert(records.filter(keep)[j] == record);
    }
}

/// A pending request stays remembered, whatever other requests come in and whenever they come.
pub proof fn pending_requests_are_never_evicted<T>(
    ledger: LedgerView<T>,
    number: u64,
    fingerprint: Seq<char>,
    now: u64,
    pending: RequestView<T>,
)
    requires
        ledger.records.contains(pending),
        pending.result is None,
    ensures
        ledger.answered(number, fingerprint, now).0.records.contains(pending),
{
    let keep = |record: RequestView<T>| record.live(now, ledger.ttl_ms);
    lemma_filter_keeps(ledger.records, keep, pending);
    lemma_with_room_keeps_pending(ledger.live(now), ledger.max_records as nat, pending);
    let room = with_room(ledger.live(now), ledger.max_records as nat);
    let i = choose|i: int| 0 <= i < room.len() && room[i] == pending;
    let next = RequestView { number, fingerprint, result: None::<T>, accepted_ms: now };
    assert(room.push(next)[i] == pending);
}

/// No more requests are remembered than the ledger has room for.
pub proof fn remembered_requests_are_bounded<T>(
    ledger: LedgerView<T>,
    number: u64,
    fingerprint: Seq<char>,
    now: u64,
)
    requires
        ledger.records.len() <= ledger.max_records,
    ensures
        ledger.answered(number, fingerprint, now).0.records.len() <= ledger.max_records,
{
    let keep = |record: RequestView<T>| record.live(now, ledger.ttl_ms);
    lemma_filter_len(ledger.records, keep);
    lemma_with_room_len(ledger.live(now), ledger.max_records as nat);
}

proof fn lemma_filter_len<T>(
    records: Seq<RequestView<T>>,
    keep: spec_fn(RequestView<T>) -> bool,
)
    ensures
        records.filter(keep).len() <= records.len(),
    decreases records.len(),
{
    reveal(Seq::filter);
    if records.len() > 0 {
        lemma_filter_len(records.drop_last(), keep);
    }
}

proof fn lemma_with_room_len<T>(records: Seq<RequestView<T>>, max_records: nat)
    ensures
        with_room(records, max_records).len() <= records.len(),
    decreases records.len(),
{
    let at = first_completed(records, 0);
    if records.len() >= max_records && 0 <= at < records.len() {
        lemma_with_room_len(records.remove(at), max_records);
    }
}

/// Which picker a selection belongs to.
pub struct SelectionTicket {
    context: NativeContext,
    epoch_serial: u64,
    serial: u64,
}

/// What a selection ticket says.
#[verifier::ext_equal]
pub struct SelectionView {
    pub context: ContextView,
    pub epoch_serial: u64,
    pub serial: u64,
}

impl View for SelectionTicket {
    type V = SelectionView;

    closed spec fn view(&self) -> SelectionView {
        SelectionView {
            context: self.context@,
            epoch_serial: self.epoch_serial,
            serial: self.serial,
        }
    }
}

impl Clone for SelectionTicket {
    fn clone(&self) -> (other: Self)
        ensures
            other@ == self@,
    {
        SelectionTicket {
            context: self.context.copy(),
            epoch_serial: self.epoch_serial,
            serial: self.serial,
        }
    }
}

/// The state of the control plane. `token` is the number of the current cancellation token, and
/// `signalled` holds the numbers of the tokens that were asked to stop.
#[verifier::ext_equal]
pub struct ControllerView {
    pub context: ContextView,
    pub nonce: Option<Seq<char>>,
    pub epoch_serial: u64,
    pub scope: Option<ScopeView>,
    pub selection_serial: u64,
    pub active_selection: Option<u64>,
    pub token: nat,
    pub signalled: Set<nat>,
}

/// One more, as far as 64 bits go.
pub open spec fn next_serial(serial: u64) -> u64 {
    if serial < u64::MAX {
        (serial + 1) as u64
    } else {
        serial
    }
}

impl ControllerView {
    /// Tokens are numbered in the order in which they were made.
    pub open spec fn wf(self) -> bool {
        forall|token: nat| #[trigger] self.signalled.contains(token) ==> token <= self.token
    }

    /// A new session state: the old token is asked to stop, a new one takes its place.
    pub open spec fn replaced(self, scope: ScopeView) -> ControllerView {
        ControllerView {
            scope: Some(scope),
            selection_serial: next_serial(self.selection_serial),
            token: self.token + 1,
            signalled: self.signalled.insert(self.token),
            ..self
        }
    }

    /// No session; the current token is asked to stop.
    pub open spec fn closed(self) -> ControllerView {
        ControllerView {
            scope: None,
            selection_serial: next_serial(self.selection_serial),
            signalled: self.signalled.insert(self.token),
            ..self
        }
    }

    /// Whether a request comes from the connected document, and for the current scope.
    pub open spec fn validated(
        self,
        context: ContextView,
        epoch: u64,
        scope: Option<ScopeView>,
    ) -> Result<(), ControlError> {
        if context != self.context || self.nonce is None || epoch != self.epoch_serial {
            Err(ControlError::ClientExpired)
        } else {
            match (scope, self.scope) {
                (None, _) => Ok(()),
                (Some(_), None) => Err(ControlError::SessionClosed),
                (Some(expected), Some(actual)) => if actual.session_id != expected.session_id {
                    Err(ControlError::SessionClosed)
                } else if actual.generation != expected.generation {
                    Err(ControlError::StaleGeneration)
                } else {
                    Ok(())
                },
            }
        }
    }
}

impl ControllerView {
    /// What connecting a document under a nonce comes to.
    pub open spec fn connected(self, context: ContextView, nonce: Seq<char>) -> (
        ControllerView,
        Result<u64, ControlError>,
    ) {
        if context != self.context || context.window != "main"@ {
            (self, Err(ControlError::ClientExpired))
        } else if nonce.len() == 0 || text::utf8(nonce).len() > 128 {
            (self, Err(ControlError::InvalidArgument))
        } else if self.nonce is Some {
            (
                self,
                if self.nonce == Some(nonce) {
                    Ok(self.epoch_serial)
                } else {
                    Err(ControlError::ClientExpired)
                },
            )
        } else if self.epoch_serial >= MAX_SAFE_INTEGER {
            (self, Err(ControlError::ResourceLimit))
        } else {
            (
                ControllerView {
                    nonce: Some(nonce),
                    epoch_serial: (self.epoch_serial + 1) as u64,
                    ..self
                },
                Ok((self.epoch_serial + 1) as u64),
            )
        }
    }

    /// The control plane after a document was loaded.
    pub open spec fn loaded(self, context: ContextView) -> ControllerView {
        if context == self.context {
            self
        } else {
            ControllerView { nonce: None, context, ..self.closed() }
        }
    }

    /// What opening the picker comes to.
    pub open spec fn picking(self, context: ContextView, epoch: u64) -> (
        ControllerView,
        Result<SelectionView, ControlError>,
    ) {
        match self.validated(context, epoch, None) {
            Err(error) => (self, Err(error)),
            Ok(_) => if self.active_selection is Some || self.selection_serial == u64::MAX {
                (self, Err(ControlError::ResourceLimit))
            } else {
                let serial = (self.selection_serial + 1) as u64;
                (
                    ControllerView {
                        selection_serial: serial,
                        active_selection: Some(serial),
                        ..self
                    },
                    Ok(SelectionView { context, epoch_serial: epoch, serial }),
                )
            },
        }
    }

    /// What releasing a picker comes to.
    pub open spec fn dismissed(self, ticket: SelectionView) -> (
        ControllerView,
        Result<(), ControlError>,
    ) {
        if self.active_selection == Some(ticket.serial) {
            (ControllerView { active_selection: None, ..self }, Ok(()))
        } else {
            (self, Err(ControlError::ClientExpired))
        }
    }

    /// What a root that was picked comes to.
    pub open spec fn picked(self, ticket: SelectionView, session_id: Seq<char>) -> (
        ControllerView,
        Result<ScopeView, ControlError>,
    ) {
        let released = ControllerView { active_selection: None, ..self };
        let scope = ScopeView { session_id, generation: 1 };
        if self.active_selection != Some(ticket.serial) {
            (self, Err(ControlError::ClientExpired))
        } else if self.validated(ticket.context, ticket.epoch_serial, None) is Err || ticket.serial
            != self.selection_serial {
            (released, Err(ControlError::ClientExpired))
        } else {
            (released.replaced(scope), Ok(scope))
        }
    }

    /// What asking for the next generation comes to.
    pub open spec fn refreshed(self, expected: ScopeView) -> (
        ControllerView,
        Result<ScopeView, ControlError>,
    ) {
        match self.scope {
            None => (self, Err(ControlError::SessionClosed)),
            Some(actual) => if actual.session_id != expected.session_id {
                (self, Err(ControlError::SessionClosed))
            } else if actual.generation != expected.generation {
                (self, Err(ControlError::StaleGeneration))
            } else if actual.generation >= MAX_SAFE_INTEGER {
                (self, Err(ControlError::ResourceLimit))
            } else {
                let scope = ScopeView {
                    session_id: actual.session_id,
                    generation: (actual.generation + 1) as u64,
                };
                (self.replaced(scope), Ok(scope))
            },
        }
    }
}

/// The control plane of one window.
pub struct SessionController {
    context: NativeContext,
    nonce: Option<String>,
    epoch_serial: u64,
    pub scope: Option<Scope>,
    selection_serial: u64,
    active_selection: Option<u64>,
    cancellation: Cancellation,
    signalled: Ghost<Set<nat>>,
}

impl View for SessionController {
    type V = ControllerView;

    closed spec fn view(&self) -> ControllerView {
        ControllerView {
            context: self.context@,
            nonce: text::optional_text(self.nonce),
            epoch_serial: self.epoch_serial,
            scope: optional_scope(self.scope),
            selection_serial: self.selection_serial,
            active_selection: self.active_selection,
            token: self.cancellation.serial(),
            signalled: self.signalled@,
        }
    }
}

impl SessionController {
    /// The token of the current session.
    pub closed spec fn token_now(&self) -> Cancellation {
        self.cancellation
    }

    /// Tokens are numbered in order, and a current token that counts as signalled was asked.
    pub open spec fn wf(&self) -> bool {
        &&& self@.wf()
        &&& self.token_now().serial() == self@.token
        &&& self@.signalled.contains(self@.token) ==> self.token_now().asked()
    }

    /// Whether the token was asked for a stop and a new one took its place.
    pub open spec fn token_replaced(before: &Self, after: &Self) -> bool {
        before.token_now().asked() && after.token_now().is_new()
    }

    /// A control plane without a client or a session.
    pub fn new(context: NativeContext) -> (controller: Self)
        ensures
            controller.wf(),
            controller@ == (ControllerView {
                context: context@,
                nonce: None,
                epoch_serial: 0,
                scope: None,
                selection_serial: 0,
                active_selection: None,
                token: 0,
                signalled: Set::empty(),
            }),
            controller.token_now().is_new(),
    {
        SessionController {
            context,
            nonce: None,
            epoch_serial: 0,
            scope: None,
            selection_serial: 0,
            active_selection: None,
            cancellation: Cancellation::default(),
            signalled: Ghost(Set::empty()),
        }
    }

    /// Asks the holders of the current token to stop.
    fn signal(&mut self)
        requires
            old(self).wf(),
        ensures
            final(self).wf(),
            final(self)@ == (ControllerView {
                signalled: old(self)@.signalled.insert(old(self)@.token),
                ..old(self)@
            }),
            final(self).scope == old(self).scope,
            final(self).token_now() == old(self).token_now(),
            old(self).token_now().asked(),
    {
        self.cancellation.cancel();
        self.signalled = Ghost(self.signalled@.insert(self.cancellation.serial()));
    }

    /// Signals the current token and makes a new one.
    fn replace_token(&mut self)
        requires
            old(self).wf(),
        ensures
            final(self).wf(),
            final(self)@ == (ControllerView {
                token: old(self)@.token + 1,
                signalled: old(self)@.signalled.insert(old(self)@.token),
                ..old(self)@
            }),
            final(self).scope == old(self).scope,
            Self::token_replaced(old(self), final(self)),
    {
        self.signal();
        let ghost serial = self.cancellation.serial() + 1;
        self.cancellation = Cancellation::numbered(Ghost(serial));
    }

    /// Connects the document of the main window under a nonce. The same nonce may connect again
    /// and gets the same epoch; another one is refused until the document is replaced.
    pub fn connect(&mut self, context: &NativeContext, nonce: &str) -> (result: Result<
        u64,
        ControlError,
    >)
        ensures
            result == old(self)@.connected(context@, nonce@).1,
            final(self)@ == old(self)@.connected(context@, nonce@).0,
            final(self).token_now() == old(self).token_now(),
    {
        if !context.same(&self.context) || !same_text(context.window.as_str(), "main") {
            return Err(ControlError::ClientExpired);
        }
        if nonce.is_empty() || byte_len(nonce) > 128 {
            return Err(ControlError::InvalidArgument);
        }
        if let Some(current) = &self.nonce {
            return if same_text(current.as_str(), nonce) {
                Ok(self.epoch_serial)
            } else {
                Err(ControlError::ClientExpired)
            };
        }
        if self.epoch_serial >= MAX_SAFE_INTEGER {
            return Err(ControlError::ResourceLimit);
        }
        self.epoch_serial = self.epoch_serial + 1;
        self.nonce = Some(nonce.to_owned());
        Ok(self.epoch_serial)
    }

    /// A document was loaded. One that is already known changes nothing.
    pub fn document_loaded(&mut self, context: NativeContext)
        requires
            old(self).wf(),
        ensures
            final(self).wf(),
            final(self)@ == old(self)@.loaded(context@),
            final(self).token_now() == old(self).token_now(),
            context@ != old(self)@.context ==> old(self).token_now().asked(),
    {
        if context.same(&self.context) {
            return;
        }
        self.close();
        self.nonce = None;
        self.context = context;
    }

    /// Whether a request comes from the connected document, and for the current scope.
    pub fn validate(&self, context: &NativeContext, epoch: u64, scope: Option<&Scope>) -> (result:
        Result<(), ControlError>)
        ensures
            result == self@.validated(
                context@,
                epoch,
                match scope {
                    Some(scope) => Some(scope@),
                    None => None,
                },
            ),
    {
        if !context.same(&self.context) || self.nonce.is_none() || epoch != self.epoch_serial {
            return Err(ControlError::ClientExpired);
        }
        if let Some(expected) = scope {
            match &self.scope {
                None => {
                    return Err(ControlError::SessionClosed);
                },
                Some(actual) => {
                    if !same_text(actual.session_id.as_str(), expected.session_id.as_str()) {
                        return Err(ControlError::SessionClosed);
                    }
                    if actual.generation != expected.generation {
                        return Err(ControlError::StaleGeneration);
                    }
                },
            }
        }
        Ok(())
    }

    /// Opens the picker, unless one is open.
    pub fn begin_selection(&mut self, context: &NativeContext, epoch: u64) -> (result: Result<
        SelectionTicket,
        ControlError,
    >)
        requires
            old(self).wf(),
        ensures
            final(self).wf(),
            final(self)@ == old(self)@.picking(context@, epoch).0,
            match old(self)@.picking(context@, epoch).1 {
                Ok(ticket) => result is Ok && result->Ok_0@ == ticket,
                Err(error) => result == Err::<SelectionTicket, ControlError>(error),
            },
            final(self).token_now() == old(self).token_now(),
    {
        if let Err(error) = self.validate(context, epoch, None) {
            return Err(error);
        }
        if self.active_selection.is_some() || self.selection_serial == u64::MAX {
            return Err(ControlError::ResourceLimit);
        }
        self.selection_serial = self.selection_serial + 1;
        self.active_selection = Some(self.selection_serial);
        Ok(
            SelectionTicket {
                context: context.copy(),
                epoch_serial: epoch,
                serial: self.selection_serial,
            },
        )
    }

    /// Makes the picked root the current session. The picker is released in any case, unless
    /// the ticket is not the open picker's.
    pub fn accept_selection(&mut self, ticket: &SelectionTicket, session_id: String) -> (result:
        Result<Scope, ControlError>)
        requires
            old(self).wf(),
        ensures
            final(self).wf(),
            final(self)@ == old(self)@.picked(ticket@, session_id@).0,
            match old(self)@.picked(ticket@, session_id@).1 {
                Ok(scope) => result is Ok && result->Ok_0@ == scope && Self::token_replaced(
                    old(self),
                    final(self),
                ),
                Err(error) => result == Err::<Scope, ControlError>(error),
            },
            result is Err ==> final(self).token_now() == old(self).token_now(),
    {
        if let Err(error) = self.dismiss_selection(ticket) {
            return Err(error);
        }
        if let Err(error) = self.validate(&ticket.context, ticket.epoch_serial, None) {
            return Err(error);
        }
        if ticket.serial != self.selection_serial {
            return Err(ControlError::ClientExpired);
        }
        self.selection_serial = self.selection_serial.saturating_add(1);
        let scope = Scope { session_id, generation: 1 };
        self.replace_token();
        self.scope = Some(scope.copy());
        Ok(scope)
    }

    /// Native callback cleanup, including cancellation and validation failure. Releasing a stale
    /// picker must not release a newer one or change the current session.
    pub fn dismiss_selection(&mut self, ticket: &SelectionTicket) -> (result: Result<
        (),
        ControlError,
    >)
        requires
            old(self).wf(),
        ensures
            final(self).wf(),
            result == old(self)@.dismissed(ticket@).1,
            final(self)@ == old(self)@.dismissed(ticket@).0,
            final(self).token_now() == old(self).token_now(),
    {
        match self.active_selection {
            Some(serial) => {
                if serial != ticket.serial {
                    return Err(ControlError::ClientExpired);
                }
            },
            None => {
                return Err(ControlError::ClientExpired);
            },
        }
        self.active_selection = None;
        Ok(())
    }

    /// Starts the next generation of the current session. The caller revalidates the root
    /// identity afterwards; failure leaves the new generation in an error state and never
    /// restores old data.
    pub fn refresh(&mut self, expected: &Scope) -> (result: Result<Scope, ControlError>)
        requires
            old(self).wf(),
        ensures
            final(self).wf(),
            final(self)@ == old(self)@.refreshed(expected@).0,
            match old(self)@.refreshed(expected@).1 {
                Ok(scope) => result is Ok && result->Ok_0@ == scope && Self::token_replaced(
                    old(self),
                    final(self),
                ),
                Err(error) => result == Err::<Scope, ControlError>(error),
            },
            result is Err ==> final(self).token_now() == old(self).token_now(),
    {
        let next = match &self.scope {
            None => {
                return Err(ControlError::SessionClosed);
            },
            Some(actual) => {
                if !same_text(actual.session_id.as_str(), expected.session_id.as_str()) {
                    return Err(ControlError::SessionClosed);
                }
                if actual.generation != expected.generation {
                    return Err(ControlError::StaleGeneration);
                }
                if actual.generation >= MAX_SAFE_INTEGER {
                    return Err(ControlError::ResourceLimit);
                }
                Scope { session_id: actual.session_id.clone(), generation: actual.generation + 1 }
            },
        };
        self.replace_token();
        self.selection_serial = self.selection_serial.saturating_add(1);
        self.scope = Some(next.copy());
        Ok(next)
    }

    /// The token of the current session.
    pub fn cancellation_token(&self) -> (token: Cancellation)
        ensures
            token == self.token_now(),
    {
        self.cancellation.clone()
    }

    /// Ends the session and asks its workers to stop.
    pub fn close(&mut self)
        requires
            old(self).wf(),
        ensures
            final(self).wf(),
            final(self)@ == old(self)@.closed(),
            final(self).token_now() == old(self).token_now(),
            old(self).token_now().asked(),
    {
        self.signal();
        self.scope = None;
        self.selection_serial = self.selection_serial.saturating_add(1);
    }
}

/// Replacing a scope asks the workers of the old one to stop and none of the new one.
pub proof fn replacement_signals_only_the_old_token(before: ControllerView, scope: ScopeView)
    requires
        before.wf(),
    ensures
        before.replaced(scope).wf(),
        before.replaced(scope).signalled.contains(before.token),
        before.replaced(scope).token != before.token,
        !before.replaced(scope).signalled.contains(before.replaced(scope).token),
{
}

/// Closing asks the current workers to stop and makes every open picker's ticket stale.
pub proof fn closing_signals_workers_and_invalidates_pickers(
    before: ControllerView,
    ticket: SelectionView,
)
    requires
        before.wf(),
        ticket.serial <= before.selection_serial,
        before.selection_serial < u64::MAX,
    ensures
        before.closed().signalled.contains(before.token),
        before.closed().scope is None,
        ticket.serial != before.closed().selection_serial,
{
}

/// After a refresh, the scope from before is refused as stale.
pub proof fn refreshed_scopes_reject_their_predecessor(
    before: ControllerView,
    context: ContextView,
    epoch: u64,
)
    requires
        before.scope is Some,
        before.scope->0.generation < MAX_SAFE_INTEGER,
        before.validated(context, epoch, before.scope) is Ok,
    ensures
        ({
            let next = ScopeView {
                session_id: before.scope->0.session_id,
                generation: (before.scope->0.generation + 1) as u64,
            };
            &&& before.replaced(next).validated(context, epoch, before.scope) == Err::<
                (),
                ControlError,
            >(ControlError::StaleGeneration)
            &&& before.replaced(next).validated(context, epoch, Some(next)) is Ok
        }),
{
}

/// State publication barrier shared by workers; a cancellation request does not imply that a
/// blocking kernel call has returned.
pub struct TaskState {
    pub scope: Scope,
    pub phase: Phase,
    pub sequence: u64,
    pub cancel_requested: bool,
    pub cancellation: Cancellation,
}

impl TaskState {
    /// Asks the task alone to stop, unless it is over.
    pub fn cancel(&mut self) -> (accepted: bool)
        ensures
            accepted == !old(self).phase.is_terminal(),
            *final(self) == (TaskState {
                cancel_requested: old(self).cancel_requested || accepted,
                ..*old(self)
            }),
    {
        if self.phase.terminal() {
            return false;
        }
        self.cancel_requested = true;
        true
    }

    /// Whether a phase may be published, given whether the session was asked to stop.
    pub open spec fn publishes(&self, current: ScopeView, phase: Phase, signalled: bool) -> bool {
        &&& current == self.scope@
        &&& !self.phase.is_terminal()
        &&& (self.cancel_requested || signalled) ==> phase is Cancelled
        &&& self.sequence < MAX_SAFE_INTEGER
    }

    /// The task after a phase was published, or as it was.
    pub open spec fn published(&self, current: ScopeView, phase: Phase, signalled: bool) -> TaskState {
        if self.publishes(current, phase, signalled) {
            TaskState { phase, sequence: (self.sequence + 1) as u64, ..*self }
        } else {
            *self
        }
    }

    /// Publishes a phase, given whether the session was asked to stop.
    pub fn publish_unless(&mut self, current: &Scope, phase: Phase, signalled: bool) -> (published:
        bool)
        ensures
            published == old(self).publishes(current@, phase, signalled),
            *final(self) == old(self).published(current@, phase, signalled),
    {
        if !current.same(&self.scope) || self.phase.terminal() || ((self.cancel_requested
            || signalled) && phase != Phase::Cancelled) {
            return false;
        }
        if self.sequence >= MAX_SAFE_INTEGER {
            return false;
        }
        self.sequence = self.sequence + 1;
        self.phase = phase;
        true
    }

    /// Publishes a phase for the current scope, unless the task is over or was asked to stop.
    pub fn publish(&mut self, current: &Scope, phase: Phase) -> (published: bool)
        ensures
            exists|signalled: bool|
                {
                    &&& old(self).cancellation.tells(signalled)
                    &&& published == #[trigger] old(self).publishes(current@, phase, signalled)
                    &&& *final(self) == old(self).published(current@, phase, signalled)
                },
    {
        let signalled = self.cancellation.is_cancelled();
        let ghost before = *self;
        let published = self.publish_unless(current, phase, signalled);
        assert(published == before.publishes(current@, phase, signalled));
        published
    }
}

/// A finished task publishes nothing more, and no task publishes for another scope.
pub proof fn finished_tasks_stay_finished(
    task: TaskState,
    current: ScopeView,
    phase: Phase,
    signalled: bool,
)
    ensures
        task.phase.is_terminal() ==> task.published(current, phase, signalled) == task,
        current != task.scope@ ==> task.published(current, phase, signalled) == task,
        task.cancel_requested && !(phase is Cancelled) ==> task.published(
            current,
            phase,
            signalled,
        ) == task,
{
}

} // verus!
