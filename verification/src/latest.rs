//! Collapsing a burst of items into the newest one.

use vstd::prelude::*;
use crate::advance::{Advance, Progress};

verus! {

/// One step of an advance, on the item retained so far within it.
///
/// The start of an advance retains nothing, whatever an abandoned advance
/// left behind, and asks for the source. Every item replaces the retained
/// one and asks for the next. The first outcome that is not an item settles
/// the advance: a failure is passed on and the retained item is lost; the end
/// or the idleness of the source hands the retained item out, and is passed
/// on itself where nothing was retained.
pub open spec fn latest_step<T, E>(retained: Option<T>, polled: Option<Advance<T, E>>) -> (
    Option<T>,
    Progress<Advance<T, E>>,
) {
    match polled {
        None => (None, Progress::Again),
        Some(Advance::Item(item)) => (Some(item), Progress::Again),
        Some(Advance::Failed(error)) => (None, Progress::Settled(Advance::Failed(error))),
        Some(Advance::End) => match retained {
            Some(item) => (None, Progress::Settled(Advance::Item(item))),
            None => (None, Progress::Settled(Advance::End)),
        },
        Some(Advance::NotReady) => match retained {
            Some(item) => (None, Progress::Settled(Advance::Item(item))),
            None => (None, Progress::Settled(Advance::NotReady)),
        },
    }
}

/// What is retained after a burst of items was taken in one by one.
pub open spec fn after_burst<T, E>(retained: Option<T>, burst: Seq<T>) -> Option<T>
    decreases burst.len(),
{
    if burst.len() == 0 {
        retained
    } else {
        latest_step::<T, E>(
            after_burst::<T, E>(retained, burst.drop_last()),
            Some(Advance::Item(burst.last())),
        ).0
    }
}

/// The sampler of a source's newest item. Between advances it holds nothing.
pub struct Latest<T> {
    retained: Option<T>,
}

impl<T> View for Latest<T> {
    type V = Option<T>;

    closed spec fn view(&self) -> Option<T> {
        self.retained
    }
}

impl<T> Latest<T> {
    /// A sampler that retains nothing.
    pub fn new() -> (out: Self)
        ensures
            out@ is None,
    {
        Latest { retained: None }
    }

    /// One step of an advance.
    ///
    /// The call that starts an advance passes `None`; each later call of the
    /// same advance passes the outcome of the source that the answer before
    /// asked for. The answer and what is retained afterwards are those of
    /// [`latest_step`].
    pub fn poll<E>(&mut self, polled: Option<Advance<T, E>>) -> (out: Progress<Advance<T, E>>)
        ensures
            (final(self)@, out) == latest_step(old(self)@, polled),
    {
        match polled {
            None => {
                self.retained = None;
                Progress::Again
            },
            Some(Advance::Item(item)) => {
                self.retained = Some(item);
                Progress::Again
            },
            Some(Advance::Failed(error)) => {
                self.retained = None;
                Progress::Settled(Advance::Failed(error))
            },
            Some(Advance::End) => match self.retained.take() {
                Some(item) => Progress::Settled(Advance::Item(item)),
                None => Progress::Settled(Advance::End),
            },
            Some(Advance::NotReady) => match self.retained.take() {
                Some(item) => Progress::Settled(Advance::Item(item)),
                None => Progress::Settled(Advance::NotReady),
            },
        }
    }
}

/// Every item of a burst asks for the next outcome, and after the burst its
/// last item is the one retained.
pub proof fn lemma_burst_retains_last<T, E>(retained: Option<T>, burst: Seq<T>)
    requires
        burst.len() > 0,
    ensures
        after_burst::<T, E>(retained, burst) == Some(burst.last()),
        forall|n: int|
            0 <= n < burst.len() ==> latest_step::<T, E>(
                after_burst::<T, E>(retained, burst.take(n)),
                Some(Advance::Item(#[trigger] burst[n])),
            ).1 == Progress::<Advance<T, E>>::Again,
{
}

/// A burst of items that is already available collapses into its last item:
/// the advance that takes the burst in and then finds the source idle or at
/// its end hands out the last item of the burst and retains nothing. The next
/// advance hands out no item before the source produced one: on an idle
/// source it settles as idle, on a finished one as ended.
pub proof fn lemma_burst_yields_last_once<T, E>(burst: Seq<T>, ending: Advance<T, E>)
    requires
        burst.len() > 0,
        ending is NotReady || ending is End,
    ensures
        ({
            let started = latest_step::<T, E>(None, None).0;
            let settled = latest_step(after_burst::<T, E>(started, burst), Some(ending));
            let restarted = latest_step::<T, E>(settled.0, None);
            &&& settled.1 == Progress::Settled(Advance::<T, E>::Item(burst.last()))
            &&& settled.0 is None
            &&& restarted.1 == Progress::<Advance<T, E>>::Again
            &&& latest_step::<T, E>(restarted.0, Some(Advance::NotReady)).1 == Progress::Settled(
                Advance::<T, E>::NotReady,
            )
            &&& latest_step::<T, E>(restarted.0, Some(Advance::End)).1 == Progress::Settled(
                Advance::<T, E>::End,
            )
        }),
{
    lemma_burst_retains_last::<T, E>(latest_step::<T, E>(None, None).0, burst);
}

} // verus!
