//! Tagging each item with its position in the sequence.

use vstd::prelude::*;
use crate::advance::{Advance, Progress};

verus! {

/// One step of an advance, on the number of items tagged so far: the start
/// asks for the source, an item is handed out with the count as its tag and
/// raises the count by one, and every other outcome is passed on.
pub open spec fn enumerate_step<T, E>(count: nat, polled: Option<Advance<T, E>>) -> (
    nat,
    Progress<Advance<(usize, T), E>>,
) {
    match polled {
        None => (count, Progress::Again),
        Some(Advance::Item(item)) => (
            count + 1,
            Progress::Settled(Advance::Item((count as usize, item))),
        ),
        Some(Advance::End) => (count, Progress::Settled(Advance::End)),
        Some(Advance::NotReady) => (count, Progress::Settled(Advance::NotReady)),
        Some(Advance::Failed(error)) => (count, Progress::Settled(Advance::Failed(error))),
    }
}

/// The running counter that tags the items of a source.
pub struct Enumerate {
    i: usize,
}

impl View for Enumerate {
    type V = nat;

    closed spec fn view(&self) -> nat {
        self.i as nat
    }
}

impl Enumerate {
    /// A counter at zero.
    pub fn new() -> (out: Self)
        ensures
            out@ == 0,
    {
        Enumerate { i: 0 }
    }

    /// The number of items tagged so far.
    pub fn count(&self) -> (out: usize)
        ensures
            out == self@,
    {
        self.i
    }

    /// One step of an advance.
    ///
    /// The call that starts an advance passes `None`, the next one the
    /// outcome of the source. The answer and the count afterwards are those
    /// of [`enumerate_step`]. An item can be tagged only while the count has
    /// a successor.
    pub fn poll<T, E>(&mut self, polled: Option<Advance<T, E>>) -> (out: Progress<
        Advance<(usize, T), E>,
    >)
        requires
            polled matches Some(Advance::Item(_)) ==> old(self)@ < usize::MAX,
        ensures
            (final(self)@, out) == enumerate_step(old(self)@, polled),
    {
        match polled {
            None => Progress::Again,
            Some(Advance::Item(item)) => {
                let index: usize = self.i;
                self.i = index + 1;
                Progress::Settled(Advance::Item((index, item)))
            },
            Some(Advance::End) => Progress::Settled(Advance::End),
            Some(Advance::NotReady) => Progress::Settled(Advance::NotReady),
            Some(Advance::Failed(error)) => Progress::Settled(Advance::Failed(error)),
        }
    }
}

} // verus!
