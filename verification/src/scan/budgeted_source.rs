//! Charges every directory cursor that a source owns to the application's shared handles.
use vstd::prelude::*;

use crate::domain::model::{FsIssue, IssueScope, IssueView};
use crate::scan::aggregate::ObservationView;
use crate::scan::usage::{Observation, ObservationSource};
use crate::scheduler::handles;
use crate::scheduler::{Handles, SubmitError};

verus! {

/// What is said of a directory for which there is no handle.
pub open spec fn out_of_handles() -> IssueView {
    IssueView {
        code: "RESOURCE_LIMIT"@,
        operation: "openDirectory"@,
        scope: IssueScope::Subtree,
        entry_id: None,
        native_code: None,
    }
}

/// A source whose cursors are charged.
pub struct BudgetedSource<S, H> {
    source: S,
    handles: H,
}

/// A cursor and the permit that it holds. The cursor is closed before its permit is given back.
pub struct BudgetedCursor<C, P> {
    cursor: C,
    permit: P,
}

impl<C, P> BudgetedCursor<C, P> {
    /// The cursor that is charged.
    pub closed spec fn inner(&self) -> C {
        self.cursor
    }

    /// What it is charged with.
    pub closed spec fn charge(&self) -> P {
        self.permit
    }
}

/// A cursor together with its permit, or the failure to open it.
pub fn charged<C, P>(permit: P, opened: Result<C, FsIssue>) -> (result: Result<
    BudgetedCursor<C, P>,
    FsIssue,
>)
    ensures
        match opened {
            Ok(cursor) => {
                &&& result is Ok
                &&& result->Ok_0.inner() == cursor
                &&& result->Ok_0.charge() == permit
            },
            Err(issue) => result is Err && result->Err_0 == issue,
        },
{
    match opened {
        Ok(cursor) => Ok(BudgetedCursor { cursor, permit }),
        Err(issue) => Err(issue),
    }
}

/// The issue of a directory for which there is no handle.
pub fn no_handle() -> (issue: FsIssue)
    ensures
        issue@ == out_of_handles(),
{
    FsIssue {
        code: "RESOURCE_LIMIT".to_owned(),
        operation: "openDirectory".to_owned(),
        scope: IssueScope::Subtree,
        entry_id: None,
        native_code: None,
    }
}

impl<S, H> BudgetedSource<S, H> {
    /// The source without its charges.
    pub closed spec fn source_now(&self) -> S {
        self.source
    }

    /// Where the handles come from.
    pub closed spec fn handles_now(&self) -> H {
        self.handles
    }

    /// Charges a source.
    pub fn new(source: S, handles: H) -> (budgeted: Self)
        ensures
            budgeted.source_now() == source,
            budgeted.handles_now() == handles,
    {
        BudgetedSource { source, handles }
    }

    /// The source without its charges.
    pub fn inner(&self) -> (source: &S)
        ensures
            *source == self.source_now(),
    {
        &self.source
    }
}

impl<S: ObservationSource, H: Handles> ObservationSource for BudgetedSource<S, H> {
    type Cursor = BudgetedCursor<S::Cursor, H::Permit>;

    /// A cursor is what the source opened, charged with the handle that was granted for it. Where
    /// no handle was granted, the source is not called.
    open spec fn opens(
        before: &Self,
        directory: ObservationView,
        after: &Self,
        opened: Result<Self::Cursor, FsIssue>,
    ) -> bool {
        let handles = before.handles_now();
        &&& after.handles_now() == handles
        &&& match opened {
            Ok(cursor) => {
                &&& handles::answers(&handles, Ok(cursor.charge()))
                &&& S::opens(
                    &before.source_now(),
                    directory,
                    &after.source_now(),
                    Ok(cursor.inner()),
                )
            },
            Err(issue) => {
                ||| {
                    &&& exists|permit: H::Permit| #[trigger] handles::answers(&handles, Ok(permit))
                    &&& S::opens(&before.source_now(), directory, &after.source_now(), Err(issue))
                }
                ||| {
                    &&& exists|error: SubmitError| #[trigger]
                        handles::answers(&handles, Err(error))
                    &&& issue@ == out_of_handles()
                    &&& after.source_now() == before.source_now()
                }
            },
        }
    }

    /// Reading on is reading on in the source; the charge stays.
    open spec fn gives(
        before: &Self,
        from: &Self::Cursor,
        after: &Self,
        to: &Self::Cursor,
        next: Result<Option<Observation>, FsIssue>,
    ) -> bool {
        &&& after.handles_now() == before.handles_now()
        &&& to.charge() == from.charge()
        &&& S::gives(
            &before.source_now(),
            &from.inner(),
            &after.source_now(),
            &to.inner(),
            next,
        )
    }

    /// A directory is opened only with a handle in hand.
    fn open(&mut self, directory: &Observation) -> Result<Self::Cursor, FsIssue> {
        match self.handles.acquire() {
            Ok(permit) => {
                assert(handles::answers(&old(self).handles_now(), Ok(permit)));
                charged(permit, self.source.open(directory))
            },
            Err(error) => {
                assert(handles::answers(
                    &old(self).handles_now(),
                    Err::<H::Permit, SubmitError>(error),
                ));
                Err(no_handle())
            },
        }
    }

    fn next(&mut self, cursor: &mut Self::Cursor) -> Result<Option<Observation>, FsIssue> {
        self.source.next(&mut cursor.cursor)
    }
}

} // verus!
