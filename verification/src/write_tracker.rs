//! Keeping track of the background writes of one operation.
//!
//! Every task reports its result when it ends, and nothing is kept per task: only how many are on
//! their way and the first error. Leaders and followers are counted alike; the names say who owns
//! the buffer.
use std::sync::Arc;
use vstd::prelude::*;

use crate::error::{InternalError, StorageError};
use crate::types::{Address, Fragment};

verus! {

/// What a tracker knows of its tasks.
pub struct WriteTracker<O> {
    /// The number of tasks that were started and have not ended.
    pub in_flight: usize,
    /// The error of the first task that failed. Later ones are dropped.
    pub first_error: Option<StorageError>,
    /// Who is told of each stored fragment.
    pub on_fragment: Option<Arc<O>>,
}

/// What waiting for all tasks comes to.
#[derive(Clone, Copy, Debug, PartialEq, Eq)]
pub enum Drained {
    /// Tasks are still on their way.
    Waiting,
    /// All tasks have ended.
    Done(Result<(), StorageError>),
}

impl<O> WriteTracker<O> {
    /// A tracker without tasks.
    pub fn new() -> (r: WriteTracker<O>)
        ensures
            r.in_flight == 0,
            r.first_error is None,
            r.on_fragment is None,
    {
        WriteTracker { in_flight: 0, first_error: None, on_fragment: None }
    }

    /// A tracker without tasks that tells `observer` of each stored fragment.
    pub fn with_observer(observer: Arc<O>) -> (r: WriteTracker<O>)
        ensures
            r.in_flight == 0,
            r.first_error is None,
            r.on_fragment == Some(observer),
    {
        WriteTracker { in_flight: 0, first_error: None, on_fragment: Some(observer) }
    }

    /// A tracker without tasks that tells the same observer.
    pub fn new_like(&self) -> (r: WriteTracker<O>)
        ensures
            r.in_flight == 0,
            r.first_error is None,
            r.on_fragment == self.on_fragment,
    {
        let on_fragment = match &self.on_fragment {
            Some(observer) => Some(observer.clone()),
            None => None,
        };
        WriteTracker { in_flight: 0, first_error: None, on_fragment }
    }

    /// Counts a leader that starts.
    pub fn spawn_leader(&mut self)
        requires
            old(self).in_flight < usize::MAX,
        ensures
            *final(self) == (WriteTracker {
                in_flight: (old(self).in_flight + 1) as usize,
                ..*old(self)
            }),
    {
        self.in_flight = self.in_flight + 1;
    }

    /// Counts a follower that starts.
    pub fn register_follower(&mut self)
        requires
            old(self).in_flight < usize::MAX,
        ensures
            *final(self) == (WriteTracker {
                in_flight: (old(self).in_flight + 1) as usize,
                ..*old(self)
            }),
    {
        self.in_flight = self.in_flight + 1;
    }

    /// Records how a task ended. The result says whether it was the last on its way, so that who
    /// waits is to be woken.
    pub fn finish(&mut self, result: Result<(Address, Fragment), StorageError>) -> (r: bool)
        requires
            old(self).in_flight > 0,
        ensures
            *final(self) == (WriteTracker {
                in_flight: (old(self).in_flight - 1) as usize,
                first_error: match old(self).first_error {
                    Some(e) => Some(e),
                    None => match result {
                        Ok(_) => None,
                        Err(e) => Some(e),
                    },
                },
                ..*old(self)
            }),
            *final(self) == old(self).after_one(result),
            r == (final(self).in_flight == 0),
    {
        if let Err(e) = result {
            if self.first_error.is_none() {
                self.first_error = Some(e);
            }
        }
        self.in_flight = self.in_flight - 1;
        self.in_flight == 0
    }

    /// The tracker once one more task has ended.
    pub open spec fn after_one(self, result: Result<(Address, Fragment), StorageError>) -> Self {
        WriteTracker {
            in_flight: (self.in_flight - 1) as usize,
            first_error: if self.first_error is None && result is Err {
                Some(result->Err_0)
            } else {
                self.first_error
            },
            ..self
        }
    }

    /// What asking whether all tasks have ended comes to.
    pub open spec fn drained(self, handles: usize) -> Drained {
        if handles != 1 {
            Drained::Done(Err(StorageError::Internal(InternalError::TrackerShared)))
        } else if self.in_flight > 0 {
            Drained::Waiting
        } else {
            Drained::Done(
                match self.first_error {
                    Some(e) => Err(e),
                    None => Ok(()),
                },
            )
        }
    }

    /// Asks whether all tasks have ended, and with which error first. `handles` counts those who
    /// hold the tracker: with another than the caller, tasks could still be started, and the drain
    /// is refused.
    pub fn await_all(&self, handles: usize) -> (r: Drained)
        ensures
            r == self.drained(handles),
    {
        if handles != 1 {
            return Drained::Done(Err(StorageError::Internal(InternalError::TrackerShared)));
        }
        if self.in_flight > 0 {
            return Drained::Waiting;
        }
        match self.first_error {
            Some(e) => Drained::Done(Err(e)),
            None => Drained::Done(Ok(())),
        }
    }
}

impl<O: Fn(&Fragment, bool)> WriteTracker<O> {
    /// Tells the observer, if there is one, of a stored fragment. The result says whether anyone was
    /// told.
    pub fn notify_fragment(&self, fragment: &Fragment, deduplicated: bool) -> (r: bool)
        requires
            self.on_fragment is Some ==> call_requires(
                *self.on_fragment->0,
                (fragment, deduplicated),
            ),
        ensures
            r == self.on_fragment is Some,
            r ==> call_ensures(*self.on_fragment->0, (fragment, deduplicated), ()),
    {
        match &self.on_fragment {
            Some(observer) => {
                (**observer)(fragment, deduplicated);
                true
            },
            None => false,
        }
    }
}

/// The errors of some tasks, in the order in which they ended, lead to the first of them.
pub open spec fn first_failure(
    results: Seq<Result<(Address, Fragment), StorageError>>,
) -> Option<StorageError>
    decreases results.len(),
{
    if results.len() == 0 {
        None
    } else {
        match first_failure(results.drop_last()) {
            Some(e) => Some(e),
            None => match results.last() {
                Ok(_) => None,
                Err(e) => Some(e),
            },
        }
    }
}

/// A tracker after some of its tasks have ended.
pub open spec fn after_finishing<O>(
    tracker: WriteTracker<O>,
    results: Seq<Result<(Address, Fragment), StorageError>>,
) -> WriteTracker<O>
    decreases results.len(),
{
    if results.len() == 0 {
        tracker
    } else {
        after_finishing(tracker, results.drop_last()).after_one(results.last())
    }
}

/// Once as many tasks have ended as were started, none is on its way, and the error is that of the
/// first that failed: later errors are dropped.
pub proof fn law_tracker_drains_to_the_first_error<O>(
    tracker: WriteTracker<O>,
    results: Seq<Result<(Address, Fragment), StorageError>>,
)
    requires
        tracker.first_error is None,
        results.len() <= tracker.in_flight,
    ensures
        after_finishing(tracker, results).in_flight == tracker.in_flight - results.len(),
        after_finishing(tracker, results).first_error == first_failure(results),
    decreases results.len(),
{
    if results.len() > 0 {
        law_tracker_drains_to_the_first_error(tracker, results.drop_last());
    }
}

/// The failure that is reported is that of the first task that failed: the tasks that ended before it
/// went well. Where none is reported, all went well.
pub proof fn law_first_failure_is_the_first(
    results: Seq<Result<(Address, Fragment), StorageError>>,
)
    ensures
        match first_failure(results) {
            Some(e) => exists|i: int|
                0 <= i < results.len() && #[trigger] results[i] == Err::<
                    (Address, Fragment),
                    StorageError,
                >(e) && forall|j: int| 0 <= j < i ==> (#[trigger] results[j]) is Ok,
            None => forall|i: int| 0 <= i < results.len() ==> (#[trigger] results[i]) is Ok,
        },
    decreases results.len(),
{
    if results.len() > 0 {
        let head = results.drop_last();
        let n = results.len() - 1;
        law_first_failure_is_the_first(head);
        assert(results[n] == results.last());
        assert(forall|i: int| 0 <= i < n ==> #[trigger] results[i] == head[i]);
        match first_failure(head) {
            Some(e) => {
                let i = choose|i: int|
                    0 <= i < head.len() && #[trigger] head[i] == Err::<
                        (Address, Fragment),
                        StorageError,
                    >(e) && forall|j: int| 0 <= j < i ==> (#[trigger] head[j]) is Ok;
                assert(results[i] == head[i]);
            },
            None => {
                assert forall|i: int| 0 <= i < n implies (#[trigger] results[i]) is Ok by {
                    assert(head[i] is Ok);
                }
            },
        }
    }
}

/// A tracker is drained only by its one holder and once every task has ended. It went well exactly if
/// no task failed; a task that ends keeps who is told of fragments.
pub proof fn law_tracker_is_drained_when_all_ended<O>(
    tracker: WriteTracker<O>,
    handles: usize,
    results: Seq<Result<(Address, Fragment), StorageError>>,
)
    requires
        tracker.first_error is None,
        results.len() <= tracker.in_flight,
    ensures
        ({
            let drained = after_finishing(tracker, results).drained(handles);
            &&& drained is Waiting <==> handles == 1 && results.len() < tracker.in_flight
            &&& drained == Drained::Done(Ok(())) <==> handles == 1 && results.len()
                == tracker.in_flight && forall|i: int|
                0 <= i < results.len() ==> (#[trigger] results[i]) is Ok
            &&& handles == 1 && drained is Done && drained->0 is Err ==> first_failure(results)
                == Some(drained->0->Err_0)
            &&& handles != 1 ==> drained == Drained::Done(
                Err(StorageError::Internal(InternalError::TrackerShared)),
            )
            &&& after_finishing(tracker, results).on_fragment == tracker.on_fragment
        }),
    decreases results.len(),
{
    law_tracker_drains_to_the_first_error(tracker, results);
    law_first_failure_is_the_first(results);
    if results.len() > 0 {
        law_tracker_is_drained_when_all_ended(tracker, handles, results.drop_last());
    }
}

} // verus!
