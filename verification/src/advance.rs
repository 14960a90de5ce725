//! The pull protocol shared by every operator.
//!
//! A source is advanced by its consumer, one attempt at a time. Each attempt
//! has one of four outcomes, modelled by [`Advance`]. The operators of this
//! crate never advance a source themselves: they are handed the outcome of
//! each attempt and answer with a [`Progress`], which either asks for one more
//! attempt or settles the consumer's own advance.

use vstd::prelude::*;
use futures::Async;

verus! {

/// `futures::Async`, made known to the verifier with its two variants,
/// `Ready(T)` and `NotReady`, exactly as the crate defines them.
#[verifier::external_type_specification]
#[verifier::reject_recursive_types(T)]
pub struct ExAsync<T>(Async<T>);

/// Whether cloning a value of type `V` gives the value itself.
pub open spec fn clones_exactly<V: Clone>() -> bool {
    forall|value: V, copy: V| cloned(value, copy) ==> value == copy
}

/// The outcome of one attempt to advance a sequence.
#[derive(Debug, PartialEq, Eq)]
pub enum Advance<T, E> {
    /// The sequence produced its next item.
    Item(T),
    /// The sequence is over.
    End,
    /// Nothing is available yet; the attempt may be repeated later.
    NotReady,
    /// The sequence failed.
    Failed(E),
}

/// What an operator answers after it was handed one outcome of its source.
#[derive(Debug, PartialEq, Eq)]
pub enum Progress<R> {
    /// The source has to be advanced once more within the same call.
    Again,
    /// The call is over and `R` is its result.
    Settled(R),
}

impl<T, E> Advance<T, E> {
    /// The outcome that a poll result stands for.
    pub open spec fn of_poll(polled: Result<Async<Option<T>>, E>) -> Self {
        match polled {
            Ok(Async::Ready(Some(item))) => Advance::Item(item),
            Ok(Async::Ready(None)) => Advance::End,
            Ok(Async::NotReady) => Advance::NotReady,
            Err(error) => Advance::Failed(error),
        }
    }

    /// The poll result that this outcome is reported as.
    pub open spec fn as_poll(self) -> Result<Async<Option<T>>, E> {
        match self {
            Advance::Item(item) => Ok(Async::Ready(Some(item))),
            Advance::End => Ok(Async::Ready(None)),
            Advance::NotReady => Ok(Async::NotReady),
            Advance::Failed(error) => Err(error),
        }
    }

    /// Reads a poll result of a stream as an outcome.
    pub fn from_poll(polled: Result<Async<Option<T>>, E>) -> (out: Self)
        ensures
            out == Self::of_poll(polled),
    {
        match polled {
            Ok(Async::Ready(Some(item))) => Advance::Item(item),
            Ok(Async::Ready(None)) => Advance::End,
            Ok(Async::NotReady) => Advance::NotReady,
            Err(error) => Advance::Failed(error),
        }
    }

    /// Writes the outcome as the poll result that a stream returns for it.
    pub fn into_poll(self) -> (out: Result<Async<Option<T>>, E>)
        ensures
            out == self.as_poll(),
    {
        match self {
            Advance::Item(item) => Ok(Async::Ready(Some(item))),
            Advance::End => Ok(Async::Ready(None)),
            Advance::NotReady => Ok(Async::NotReady),
            Advance::Failed(error) => Err(error),
        }
    }

    /// Reading and writing are inverse to each other.
    pub proof fn lemma_poll_round_trip(self, polled: Result<Async<Option<T>>, E>)
        ensures
            Self::of_poll(self.as_poll()) == self,
            Self::of_poll(polled).as_poll() == polled,
    {
    }
}

} // verus!
