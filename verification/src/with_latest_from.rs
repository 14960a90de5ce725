//! Pairing the items of a primary source with the newest value of a
//! secondary one.

use vstd::prelude::*;
use crate::advance::{clones_exactly, Advance, Progress};

verus! {

/// The state of a join.
pub enum Joining<B> {
    /// The join is running and remembers the secondary's newest value, if
    /// the secondary has produced one.
    InProgress(Option<B>),
    /// The join is over for good.
    Done,
}

/// One step of an advance of a join.
///
/// A finished join ends every advance at once. A running join asks for both
/// sources at the start of an advance, and is then handed one outcome of
/// each, the secondary's being that of its sampled and fused form. In order
/// of priority:
/// - a failure of either side is passed on, the primary's first, and
///   finishes the join;
/// - the end of the primary finishes the join;
/// - an item of the primary is paired with the secondary's value of this
///   round or else with the remembered one, and a value of this round is
///   remembered from then on;
/// - an item of the primary that finds no value at all is dropped: the
///   advance settles as idle where the secondary is only idle, and asks for
///   both sources again where the secondary has ended;
/// - an idle primary settles the advance as idle, and a value that the
///   secondary produced in this round is remembered for the next.
pub open spec fn join_step<A, B, E>(
    state: Joining<B>,
    polled: Option<(Advance<A, E>, Advance<B, E>)>,
) -> (Joining<B>, Progress<Advance<(A, B), E>>) {
    match state {
        Joining::Done => (Joining::Done, Progress::Settled(Advance::End)),
        Joining::InProgress(latest) => match polled {
            None => (state, Progress::Again),
            Some((Advance::Failed(error), _)) => (
                Joining::Done,
                Progress::Settled(Advance::Failed(error)),
            ),
            Some((_, Advance::Failed(error))) => (
                Joining::Done,
                Progress::Settled(Advance::Failed(error)),
            ),
            Some((Advance::End, _)) => (Joining::Done, Progress::Settled(Advance::End)),
            Some((Advance::Item(left), Advance::Item(right))) => (
                Joining::InProgress(Some(right)),
                Progress::Settled(Advance::Item((left, right))),
            ),
            Some((Advance::Item(left), Advance::End)) => match latest {
                Some(value) => (state, Progress::Settled(Advance::Item((left, value)))),
                None => (state, Progress::Again),
            },
            Some((Advance::Item(left), Advance::NotReady)) => match latest {
                Some(value) => (state, Progress::Settled(Advance::Item((left, value)))),
                None => (state, Progress::Settled(Advance::NotReady)),
            },
            Some((Advance::NotReady, Advance::Item(right))) => (
                Joining::InProgress(Some(right)),
                Progress::Settled(Advance::NotReady),
            ),
            Some((Advance::NotReady, _)) => (state, Progress::Settled(Advance::NotReady)),
        },
    }
}

/// The state of a join after a run of rounds, each handing in one outcome of
/// either side.
pub open spec fn join_run<A, B, E>(
    state: Joining<B>,
    rounds: Seq<(Advance<A, E>, Advance<B, E>)>,
) -> Joining<B>
    decreases rounds.len(),
{
    if rounds.len() == 0 {
        state
    } else {
        join_step(join_run(state, rounds.drop_last()), Some(rounds.last())).0
    }
}

/// The newest value that the secondary has produced in a run of rounds.
pub open spec fn newest<A, B, E>(rounds: Seq<(Advance<A, E>, Advance<B, E>)>) -> Option<B>
    decreases rounds.len(),
{
    if rounds.len() == 0 {
        None
    } else {
        match rounds.last().1 {
            Advance::Item(value) => Some(value),
            _ => newest(rounds.drop_last()),
        }
    }
}

/// The join of a primary source with the newest value of a secondary one.
pub struct WithLatestFrom<B> {
    latest_value: Option<B>,
    done: bool,
}

impl<B> View for WithLatestFrom<B> {
    type V = Joining<B>;

    closed spec fn view(&self) -> Joining<B> {
        if self.done {
            Joining::Done
        } else {
            Joining::InProgress(self.latest_value)
        }
    }
}

impl<B: Clone> WithLatestFrom<B> {
    /// A running join that remembers no value yet.
    pub fn new() -> (out: Self)
        ensures
            out@ == Joining::<B>::InProgress(None),
    {
        WithLatestFrom { latest_value: None, done: false }
    }

    /// Whether the join is over for good.
    pub fn is_done(&self) -> (out: bool)
        ensures
            out == (self@ is Done),
    {
        self.done
    }

    /// One step of an advance.
    ///
    /// The call that starts an advance passes `None`. Whenever the answer is
    /// [`Progress::Again`], both sources are advanced once, the primary
    /// first, and the next call passes the two outcomes. The answer and the
    /// state afterwards are those of [`join_step`].
    pub fn poll<A, E>(&mut self, polled: Option<(Advance<A, E>, Advance<B, E>)>) -> (out: Progress<
        Advance<(A, B), E>,
    >)
        requires
            clones_exactly::<B>(),
        ensures
            (final(self)@, out) == join_step(old(self)@, polled),
    {
        if self.done {
            return Progress::Settled(Advance::End);
        }
        match polled {
            None => Progress::Again,
            Some((Advance::Failed(error), _)) => {
                self.finish();
                Progress::Settled(Advance::Failed(error))
            },
            Some((_, Advance::Failed(error))) => {
                self.finish();
                Progress::Settled(Advance::Failed(error))
            },
            Some((Advance::End, _)) => {
                self.finish();
                Progress::Settled(Advance::End)
            },
            Some((Advance::Item(left), Advance::Item(right))) => {
                let copy = right.clone();
                assert(cloned(right, copy));
                self.latest_value = Some(copy);
                Progress::Settled(Advance::Item((left, right)))
            },
            Some((Advance::Item(left), Advance::End)) => match self.remembered() {
                Some(value) => Progress::Settled(Advance::Item((left, value))),
                None => Progress::Again,
            },
            Some((Advance::Item(left), Advance::NotReady)) => match self.remembered() {
                Some(value) => Progress::Settled(Advance::Item((left, value))),
                None => Progress::Settled(Advance::NotReady),
            },
            Some((Advance::NotReady, Advance::Item(right))) => {
                self.latest_value = Some(right);
                Progress::Settled(Advance::NotReady)
            },
            Some((Advance::NotReady, _)) => Progress::Settled(Advance::NotReady),
        }
    }

    /// Finishes the join and forgets the remembered value.
    fn finish(&mut self)
        ensures
            final(self)@ is Done,
    {
        self.done = true;
        self.latest_value = None;
    }

    /// A copy of the remembered value.
    fn remembered(&self) -> (out: Option<B>)
        requires
            clones_exactly::<B>(),
        ensures
            out == self.latest_value,
    {
        match &self.latest_value {
            Some(value) => {
                let copy = value.clone();
                assert(cloned(*value, copy));
                Some(copy)
            },
            None => None,
        }
    }
}

/// A finished join stays finished and ends every advance.
pub proof fn lemma_done_is_final<A, B, E>(polled: Option<(Advance<A, E>, Advance<B, E>)>)
    ensures
        join_step(Joining::<B>::Done, polled) == (
            Joining::<B>::Done,
            Progress::Settled(Advance::<(A, B), E>::End),
        ),
{
}

/// A running join remembers the newest value of the secondary, and nothing
/// where the secondary has produced none.
pub proof fn lemma_join_remembers_newest<A, B, E>(rounds: Seq<(Advance<A, E>, Advance<B, E>)>)
    ensures
        join_run(Joining::<B>::InProgress(None), rounds) is Done || join_run(
            Joining::<B>::InProgress(None),
            rounds,
        ) == Joining::InProgress(newest(rounds)),
    decreases rounds.len(),
{
    if rounds.len() > 0 {
        lemma_join_remembers_newest(rounds.drop_last());
    }
}

/// Every pair that a join hands out holds the item that the primary produced
/// in that round and the newest value that the secondary has produced up to
/// and including that round.
pub proof fn lemma_pairs_hold_newest<A, B, E>(
    rounds: Seq<(Advance<A, E>, Advance<B, E>)>,
    n: int,
    left: A,
    right: B,
)
    requires
        0 <= n < rounds.len(),
        join_step(join_run(Joining::<B>::InProgress(None), rounds.take(n)), Some(rounds[n])).1
            == Progress::Settled(Advance::<(A, B), E>::Item((left, right))),
    ensures
        rounds[n].0 == Advance::<A, E>::Item(left),
        newest(rounds.take(n + 1)) == Some(right),
{
    lemma_join_remembers_newest(rounds.take(n));
    assert(rounds.take(n + 1).drop_last() =~= rounds.take(n));
    assert(rounds.take(n + 1).last() == rounds[n]);
}

/// A secondary that ends without ever having produced a value leaves the
/// join with nothing to pair: in every later round no pair is handed out,
/// whatever the primary produces, and no value is ever remembered.
pub proof fn lemma_ended_secondary_never_pairs<A, B, E>(rounds: Seq<(Advance<A, E>, Advance<B, E>)>)
    requires
        forall|n: int| 0 <= n < rounds.len() ==> (#[trigger] rounds[n]).1 is End,
    ensures
        join_run(Joining::<B>::InProgress(None), rounds) is Done || join_run(
            Joining::<B>::InProgress(None),
            rounds,
        ) == Joining::<B>::InProgress(None),
        forall|n: int|
            #![trigger rounds[n]]
            0 <= n < rounds.len() ==> !(join_step(
                join_run(Joining::<B>::InProgress(None), rounds.take(n)),
                Some(rounds[n]),
            ).1 matches Progress::Settled(Advance::Item(_))),
    decreases rounds.len(),
{
    if rounds.len() > 0 {
        let front = rounds.drop_last();
        lemma_ended_secondary_never_pairs(front);
        assert forall|n: int| #![trigger rounds[n]] 0 <= n < rounds.len() implies !(join_step(
            join_run(Joining::<B>::InProgress(None), rounds.take(n)),
            Some(rounds[n]),
        ).1 matches Progress::Settled(Advance::Item(_))) by {
            if n < front.len() {
                assert(front.take(n) =~= rounds.take(n));
                assert(front[n] == rounds[n]);
            } else {
                assert(rounds.take(n) =~= front);
            }
        }
    }
}

} // verus!
