//! The mathematical model of a splitter: what it buffers, what it still has
//! to announce, and the history of everything that went in and came out.

use vstd::prelude::*;
use crate::advance::{Advance, Progress};

verus! {

/// The handle of one group: the position of its slot in the splitter.
#[derive(Debug, PartialEq, Eq)]
pub struct Group {
    pub index: usize,
}

/// One entry of the announcements that discovery has not handed out yet.
pub enum Announcement<K, E> {
    /// A key was seen for the first time and got the slot of this handle.
    Found(K, Group),
    /// The source failed with this error.
    Failed(E),
}

/// An event without what it carries: only which of the outcomes it is.
pub open spec fn kind_of<A, B>(event: Option<Advance<A, B>>) -> Option<Advance<(), ()>> {
    match event {
        None => None,
        Some(Advance::Item(_)) => Some(Advance::Item(())),
        Some(Advance::End) => Some(Advance::End),
        Some(Advance::NotReady) => Some(Advance::NotReady),
        Some(Advance::Failed(_)) => Some(Advance::Failed(())),
    }
}

/// An outcome of the source with the key that its item was classified as.
/// Where the outcome carries no item, the key plays no part.
pub open spec fn with_key<K, T, E>(polled: Option<Advance<T, E>>, key: K) -> Option<
    Advance<(K, T), E>,
> {
    match polled {
        None => None,
        Some(Advance::Item(item)) => Some(Advance::Item((key, item))),
        Some(Advance::End) => Some(Advance::End),
        Some(Advance::NotReady) => Some(Advance::NotReady),
        Some(Advance::Failed(error)) => Some(Advance::Failed(error)),
    }
}

/// The items of `seen` that were classified as `key`, in arrival order.
pub open spec fn items_of<K, T>(seen: Seq<(K, T)>, key: K) -> Seq<T>
    decreases seen.len(),
{
    if seen.len() == 0 {
        Seq::empty()
    } else if seen.last().0 == key {
        items_of(seen.drop_last(), key).push(seen.last().1)
    } else {
        items_of(seen.drop_last(), key)
    }
}

/// The items of `seen` without their keys, in arrival order.
pub open spec fn items<K, T>(seen: Seq<(K, T)>) -> Seq<T> {
    Seq::new(seen.len(), |j: int| seen[j].1)
}

/// The groups of `keys` laid end to end: for each key in turn, the items of
/// `seen` that were classified as it.
pub open spec fn gathered<K, T>(seen: Seq<(K, T)>, keys: Seq<K>) -> Seq<T>
    decreases keys.len(),
{
    if keys.len() == 0 {
        Seq::empty()
    } else {
        gathered(seen, keys.drop_last()) + items_of(seen, keys.last())
    }
}

/// Sequences laid end to end.
pub open spec fn joined<T>(parts: Seq<Seq<T>>) -> Seq<T>
    decreases parts.len(),
{
    if parts.len() == 0 {
        Seq::empty()
    } else {
        joined(parts.drop_last()) + parts.last()
    }
}

/// The distinct keys of `seen`, each at the place of its first occurrence.
pub open spec fn first_keys<K, T>(seen: Seq<(K, T)>) -> Seq<K>
    decreases seen.len(),
{
    if seen.len() == 0 {
        Seq::empty()
    } else {
        let before = first_keys(seen.drop_last());
        if before.contains(seen.last().0) {
            before
        } else {
            before.push(seen.last().0)
        }
    }
}

/// The keys that a run of announcements introduces, in order.
pub open spec fn found_keys<K, E>(pending: Seq<Announcement<K, E>>) -> Seq<K>
    decreases pending.len(),
{
    if pending.len() == 0 {
        Seq::empty()
    } else {
        match pending.last() {
            Announcement::Found(key, _) => found_keys(pending.drop_last()).push(key),
            Announcement::Failed(_) => found_keys(pending.drop_last()),
        }
    }
}

/// The state of a splitter together with its history.
pub struct Splitting<K, T, E> {
    /// The key of each slot. Slots are numbered in the order of discovery.
    pub keys: Seq<K>,
    /// What each slot buffers; `None` once its group was released.
    pub queues: Seq<Option<Seq<T>>>,
    /// The announcements not handed out yet, oldest first.
    pub pending: Seq<Announcement<K, E>>,
    /// Whether the source has failed.
    pub failed: bool,
    /// Every item taken from the source so far, with its key.
    pub seen: Seq<(K, T)>,
    /// The items handed out to each group so far.
    pub delivered: Seq<Seq<T>>,
    /// The keys handed out by discovery so far.
    pub announced: Seq<K>,
}

impl<K, T, E> Splitting<K, T, E> {
    /// The splitter before anything was taken from the source.
    pub open spec fn fresh() -> Self {
        Splitting {
            keys: Seq::empty(),
            queues: Seq::empty(),
            pending: Seq::empty(),
            failed: false,
            seen: Seq::empty(),
            delivered: Seq::empty(),
            announced: Seq::empty(),
        }
    }

    /// The key of the item that was taken from the source last.
    pub open spec fn last_key(self) -> K {
        if self.seen.len() > 0 {
            self.seen.last().0
        } else {
            arbitrary()
        }
    }

    /// Whether `index` names a slot whose group has not been released.
    pub open spec fn is_live(self, index: int) -> bool {
        0 <= index < self.queues.len() && self.queues[index] is Some
    }

    /// What holds of every splitter, whatever was done with it.
    pub open spec fn inv(self) -> bool {
        &&& self.keys.len() == self.queues.len()
        &&& self.keys.len() == self.delivered.len()
        &&& self.keys.len() <= usize::MAX
        &&& self.keys.no_duplicates()
        &&& self.keys == first_keys(self.seen)
        &&& self.announced + found_keys(self.pending) == self.keys
        &&& forall|j: int|
            0 <= j < self.pending.len() ==> (#[trigger] self.pending[j] matches Announcement::Found(
                key,
                group,
            ) ==> group.index < self.keys.len() && self.keys[group.index as int] == key)
        &&& forall|i: int| #[trigger]
            self.is_live(i) ==> self.delivered[i] + self.queues[i].unwrap() == items_of(
                self.seen,
                self.keys[i],
            )
    }

    /// The splitter after `item`, classified as `key`, was taken from the
    /// source: the item joins the buffer of its slot, is dropped where the
    /// group was released, or opens a new slot that is then announced.
    pub open spec fn absorb_item(self, key: K, item: T) -> Self {
        let seen = self.seen.push((key, item));
        if self.keys.contains(key) {
            let i = self.keys.index_of(key);
            match self.queues[i] {
                Some(queue) => Splitting {
                    queues: self.queues.update(i, Some(queue.push(item))),
                    seen,
                    ..self
                },
                None => Splitting { seen, ..self },
            }
        } else {
            Splitting {
                keys: self.keys.push(key),
                queues: self.queues.push(Some(seq![item])),
                pending: self.pending.push(
                    Announcement::Found(key, Group { index: self.keys.len() as usize }),
                ),
                delivered: self.delivered.push(Seq::empty()),
                seen,
                ..self
            }
        }
    }

    /// The splitter that has taken `input` in, pair by pair, and has handed
    /// nothing out.
    pub open spec fn fed(input: Seq<(K, T)>) -> Self
        decreases input.len(),
    {
        if input.len() == 0 {
            Self::fresh()
        } else {
            Self::fed(input.drop_last()).absorb_item(input.last().0, input.last().1)
        }
    }

    /// The splitter after one outcome of the source was taken in. `None`
    /// stands for the start of a call, when nothing has been taken yet.
    pub open spec fn absorb(self, event: Option<Advance<(K, T), E>>) -> Self {
        match event {
            Some(Advance::Item((key, item))) => self.absorb_item(key, item),
            Some(Advance::Failed(error)) => Splitting {
                pending: self.pending.push(Announcement::Failed(error)),
                failed: true,
                ..self
            },
            _ => self,
        }
    }

    /// What a consumer is told when nothing is buffered for it: at the start
    /// of a call the source has to be advanced, unless it has failed; an item
    /// that went elsewhere asks for the next one; an idle or finished source
    /// is passed on; a failure ends the call quietly.
    pub open spec fn idle<R, X>(self, kind: Option<Advance<(), ()>>) -> Progress<Advance<R, X>> {
        match kind {
            None => if self.failed {
                Progress::Settled(Advance::End)
            } else {
                Progress::Again
            },
            Some(Advance::Item(_)) => Progress::Again,
            Some(Advance::NotReady) => Progress::Settled(Advance::NotReady),
            Some(Advance::End) => Progress::Settled(Advance::End),
            Some(Advance::Failed(_)) => Progress::Settled(Advance::End),
        }
    }

    /// One step of discovery: the event is taken in, then the oldest
    /// announcement is handed out if there is one.
    pub open spec fn next_group(self, event: Option<Advance<(K, T), E>>) -> (
        Self,
        Progress<Advance<(K, Group), E>>,
    ) {
        let taken = self.absorb(event);
        if taken.pending.len() > 0 {
            match taken.pending[0] {
                Announcement::Found(key, group) => (
                    Splitting {
                        pending: taken.pending.drop_first(),
                        announced: taken.announced.push(key),
                        ..taken
                    },
                    Progress::Settled(Advance::Item((key, group))),
                ),
                Announcement::Failed(error) => (
                    Splitting { pending: taken.pending.drop_first(), ..taken },
                    Progress::Settled(Advance::Failed(error)),
                ),
            }
        } else {
            (taken, self.idle(kind_of(event)))
        }
    }

    /// One step of the group at `index`: the event is taken in, then the
    /// oldest buffered item of the group is handed out if there is one.
    pub open spec fn next_item(self, index: int, event: Option<Advance<(K, T), E>>) -> (
        Self,
        Progress<Advance<T, ()>>,
    ) {
        let taken = self.absorb(event);
        let queue = taken.queues[index].unwrap();
        if queue.len() > 0 {
            (
                Splitting {
                    queues: taken.queues.update(index, Some(queue.drop_first())),
                    delivered: taken.delivered.update(
                        index,
                        taken.delivered[index].push(queue[0]),
                    ),
                    ..taken
                },
                Progress::Settled(Advance::Item(queue[0])),
            )
        } else {
            (taken, self.idle(kind_of(event)))
        }
    }

    /// The splitter after the group at `index` was released: its buffer is
    /// gone and its slot stays taken.
    pub open spec fn release(self, index: int) -> Self {
        Splitting { queues: self.queues.update(index, None), ..self }
    }
}

} // verus!
