//! Splitting one source into keyed groups that are consumed independently.
//!
//! A [`GroupBy`] owns everything the groups share: one buffer per group, the
//! table from keys to slots, and the announcements that discovery has not
//! handed out yet. Discovery and every group advance through it, and whoever
//! advances takes in the source's next outcome on behalf of all the others.

pub mod laws;
pub mod lemmas;
pub mod model;

pub use model::{Announcement, Group, Splitting};

use vstd::prelude::*;
use std::collections::HashMap;
use std::collections::VecDeque;
use std::hash::Hash;
use vstd::std_specs::hash::obeys_key_model;
use crate::advance::{clones_exactly, Advance, Progress};
use crate::group_by::model::{kind_of, with_key};

verus! {

/// Whether keys of type `K` can index the slots: equal keys hash and compare
/// alike, and a cloned key is the key itself.
pub open spec fn keys_behave<K: Clone>() -> bool {
    &&& obeys_key_model::<K>()
    &&& clones_exactly::<K>()
}

/// The part of a splitter's model that no executable field holds.
struct History<K, T> {
    keys: Seq<K>,
    seen: Seq<(K, T)>,
    delivered: Seq<Seq<T>>,
    announced: Seq<K>,
}

/// The state shared by discovery and by all groups of one source.
pub struct GroupBy<K, T, E, F> {
    classify: F,
    queues: Vec<Option<VecDeque<T>>>,
    index_of: HashMap<K, usize>,
    pending: VecDeque<Announcement<K, E>>,
    failed: bool,
    history: Ghost<History<K, T>>,
}

impl<K, T, E, F> View for GroupBy<K, T, E, F> {
    type V = Splitting<K, T, E>;

    closed spec fn view(&self) -> Splitting<K, T, E> {
        Splitting {
            keys: self.history@.keys,
            queues: Seq::new(
                self.queues@.len(),
                |i: int|
                    match self.queues@[i] {
                        Some(queue) => Some(queue@),
                        None => None,
                    },
            ),
            pending: self.pending@,
            failed: self.failed,
            seen: self.history@.seen,
            delivered: self.history@.delivered,
            announced: self.history@.announced,
        }
    }
}

impl<K: Clone + Eq + Hash, T, E, F: FnMut(&T) -> K> GroupBy<K, T, E, F> {
    /// Whether the classifier may answer `key` for `item`.
    pub closed spec fn classifies(&self, item: T, key: K) -> bool {
        call_ensures(self.classify, (&item,), key)
    }

    /// Whether the splitter is in a state that its own operations lead to.
    pub closed spec fn wf(&self) -> bool {
        &&& keys_behave::<K>()
        &&& forall|item: &T| #[trigger] call_requires(self.classify, (item,))
        &&& self@.inv()
        &&& forall|key: K| #[trigger]
            self.index_of@.contains_key(key) <==> self@.keys.contains(key)
        &&& forall|i: int|
            0 <= i < self@.keys.len() ==> #[trigger] self.index_of@[self@.keys[i]] == i
        &&& forall|j: int|
            0 <= j < self@.seen.len() ==> self.classifies(
                (#[trigger] self@.seen[j]).1,
                self@.seen[j].0,
            )
    }

    /// A well-formed splitter satisfies the model's invariant, and every key
    /// in its history is one that the classifier gave for the item beside it.
    pub proof fn lemma_wf(&self)
        requires
            self.wf(),
        ensures
            self@.inv(),
            forall|j: int|
                0 <= j < self@.seen.len() ==> self.classifies(
                    (#[trigger] self@.seen[j]).1,
                    self@.seen[j].0,
                ),
    {
    }

    /// A splitter that has taken nothing from its source yet.
    pub fn new(classify: F) -> (out: Self)
        requires
            keys_behave::<K>(),
            forall|item: &T| #[trigger] call_requires(classify, (item,)),
        ensures
            out.wf(),
            out@ == Splitting::<K, T, E>::fresh(),
            forall|item: T, key: K|
                out.classifies(item, key) == call_ensures(classify, (&item,), key),
    {
        let out = GroupBy {
            classify,
            queues: Vec::new(),
            index_of: HashMap::new(),
            pending: VecDeque::new(),
            failed: false,
            history: Ghost(
                History {
                    keys: Seq::empty(),
                    seen: Seq::empty(),
                    delivered: Seq::empty(),
                    announced: Seq::empty(),
                },
            ),
        };
        proof {
            Splitting::<K, T, E>::lemma_fresh_inv();
            assert(out@.queues =~= Seq::<Option<Seq<T>>>::empty());
        }
        out
    }

    /// What is answered where nothing is buffered for the caller.
    fn idle<R, X>(&self, polled: &Option<Advance<T, E>>) -> (out: Progress<Advance<R, X>>)
        ensures
            out == self@.idle::<R, X>(kind_of(*polled)),
    {
        match polled {
            None => if self.failed {
                Progress::Settled(Advance::End)
            } else {
                Progress::Again
            },
            Some(Advance::Item(_)) => Progress::Again,
            Some(Advance::NotReady) => Progress::Settled(Advance::NotReady),
            Some(Advance::End) => Progress::Settled(Advance::End),
            Some(Advance::Failed(_)) => Progress::Settled(Advance::End),
        }
    }

    /// Takes one outcome of the source in: an item is classified once and
    /// routed to its slot, a failure is queued as the announcement that
    /// discovery will surface.
    fn absorb(&mut self, polled: Option<Advance<T, E>>)
        requires
            old(self).wf(),
        ensures
            final(self).wf(),
            forall|item: T, key: K|
                final(self).classifies(item, key) == old(self).classifies(item, key),
            polled matches Some(Advance::Item(item)) ==> old(self).classifies(
                item,
                final(self)@.last_key(),
            ),
            final(self)@ == old(self)@.absorb(with_key(polled, final(self)@.last_key())),
    {
        match polled {
            Some(Advance::Item(item)) => {
                let ghost before = self@;
                let ghost taken = item;
                let key = (self.classify)(&item);
                let ghost event = Some(Advance::<(K, T), E>::Item((key, taken)));
                let found: Option<usize> = match self.index_of.get(&key) {
                    Some(index) => Some(*index),
                    None => None,
                };
                match found {
                    Some(index) => {
                        match &mut self.queues[index] {
                            Some(queue) => {
                                queue.push_back(item);
                            },
                            None => {},
                        }
                        proof {
                            self.history@.seen = self.history@.seen.push((key, taken));
                        }
                    },
                    None => {
                        let index: usize = self.queues.len();
                        let mut queue: VecDeque<T> = VecDeque::new();
                        queue.push_back(item);
                        self.queues.push(Some(queue));
                        assert(self.queues.len() == index + 1);
                        let copy = key.clone();
                        assert(cloned(key, copy));
                        self.index_of.insert(copy, index);
                        self.pending.push_back(Announcement::Found(key, Group { index }));
                        proof {
                            self.history@.seen = self.history@.seen.push((key, taken));
                            self.history@.keys = self.history@.keys.push(key);
                            self.history@.delivered = self.history@.delivered.push(Seq::empty());
                        }
                    },
                }
                proof {
                    assert(self@.queues =~= before.absorb(event).queues);
                    before.lemma_absorb_inv(event);
                    assert forall|k: K| #[trigger]
                        self.index_of@.contains_key(k) <==> self@.keys.contains(k) by {
                        if before.keys.contains(k) {
                            let i = before.keys.index_of(k);
                            assert(self@.keys[i] == k);
                        }
                    }
                }
            },
            Some(Advance::Failed(error)) => {
                let ghost before = self@;
                self.pending.push_back(Announcement::Failed(error));
                self.failed = true;
                proof {
                    before.lemma_absorb_inv(Some(Advance::Failed(error)));
                }
            },
            _ => {},
        }
    }

    /// One step of an advance of discovery.
    ///
    /// The call that starts an advance passes `None`; each later call of the
    /// same advance passes the outcome of the source that the answer before
    /// asked for. An outcome is taken in first: an item is classified and
    /// buffered for its group, or opens a new group; a failure of the source
    /// becomes the last announcement. Then the oldest announcement is handed
    /// out, so groups are announced in the order of their discovery and the
    /// failure after them. Where none is left, an item asks for the source's
    /// next outcome, and the end or the idleness of the source is passed on.
    /// Once the source has failed, an advance that finds nothing to announce
    /// ends without asking for the source again.
    pub fn poll_next_group(&mut self, polled: Option<Advance<T, E>>) -> (out: Progress<
        Advance<(K, Group), E>,
    >)
        requires
            old(self).wf(),
        ensures
            final(self).wf(),
            forall|item: T, key: K|
                final(self).classifies(item, key) == old(self).classifies(item, key),
            polled matches Some(Advance::Item(item)) ==> old(self).classifies(
                item,
                final(self)@.last_key(),
            ),
            (final(self)@, out) == old(self)@.next_group(
                with_key(polled, final(self)@.last_key()),
            ),
    {
        let ghost before = self@;
        let quiet = self.idle(&polled);
        self.absorb(polled);
        let ghost taken = self@;
        let next = self.pending.pop_front();
        proof {
            before.lemma_next_group_inv(with_key(polled, taken.last_key()));
        }
        match next {
            Some(Announcement::Found(key, group)) => {
                proof {
                    self.history@.announced = self.history@.announced.push(key);
                }
                Progress::Settled(Advance::Item((key, group)))
            },
            Some(Announcement::Failed(error)) => Progress::Settled(Advance::Failed(error)),
            None => quiet,
        }
    }

    /// One step of an advance of the group behind `group`.
    ///
    /// The call that starts an advance passes `None`; each later call of the
    /// same advance passes the outcome of the source that the answer before
    /// asked for. An outcome is taken in first, exactly as discovery takes it
    /// in, so items of other groups are buffered for them, items of released
    /// groups are dropped and new groups are queued for discovery. Then the
    /// oldest buffered item of this group is handed out. Where none is
    /// buffered, an item asks for the source's next outcome, the end or the
    /// idleness of the source is passed on, and a failure of the source ends
    /// this group: the error itself goes to discovery.
    pub fn poll_next_group_item(&mut self, group: &Group, polled: Option<Advance<T, E>>) -> (out:
        Progress<Advance<T, ()>>)
        requires
            old(self).wf(),
            old(self)@.is_live(group.index as int),
        ensures
            final(self).wf(),
            final(self)@.is_live(group.index as int),
            forall|item: T, key: K|
                final(self).classifies(item, key) == old(self).classifies(item, key),
            polled matches Some(Advance::Item(item)) ==> old(self).classifies(
                item,
                final(self)@.last_key(),
            ),
            (final(self)@, out) == old(self)@.next_item(
                group.index as int,
                with_key(polled, final(self)@.last_key()),
            ),
    {
        let ghost before = self@;
        let quiet = self.idle(&polled);
        self.absorb(polled);
        let ghost taken = self@;
        proof {
            before.lemma_next_item_inv(group.index as int, with_key(polled, taken.last_key()));
        }
        let next = match &mut self.queues[group.index] {
            Some(queue) => queue.pop_front(),
            None => None,
        };
        match next {
            Some(item) => {
                proof {
                    self.history@.delivered = self.history@.delivered.update(
                        group.index as int,
                        self.history@.delivered[group.index as int].push(item),
                    );
                    assert(self@.queues =~= before.next_item(
                        group.index as int,
                        with_key(polled, taken.last_key()),
                    ).0.queues);
                }
                Progress::Settled(Advance::Item(item))
            },
            None => {
                proof {
                    assert(self@.queues =~= taken.queues);
                }
                quiet
            },
        }
    }

    /// Releases the group behind `group`: what is buffered for it is dropped,
    /// and every later item of its key is dropped as it arrives. The slot is
    /// never given to another key.
    pub fn release(&mut self, group: &Group)
        requires
            old(self).wf(),
            group.index < old(self)@.queues.len(),
        ensures
            final(self).wf(),
            forall|item: T, key: K|
                final(self).classifies(item, key) == old(self).classifies(item, key),
            final(self)@ == old(self)@.release(group.index as int),
    {
        let ghost before = self@;
        self.queues[group.index] = None;
        proof {
            assert(self@.queues =~= before.release(group.index as int).queues);
            before.lemma_release_inv(group.index as int);
        }
    }

    /// The number of groups discovered so far.
    pub fn slots(&self) -> (out: usize)
        requires
            self.wf(),
        ensures
            out == self@.keys.len(),
    {
        self.queues.len()
    }

    /// Whether `group` has a slot here and has not been released.
    pub fn is_live(&self, group: &Group) -> (out: bool)
        requires
            self.wf(),
        ensures
            out == self@.is_live(group.index as int),
    {
        group.index < self.queues.len() && self.queues[group.index].is_some()
    }
}

} // verus!
