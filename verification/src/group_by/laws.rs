//! What holds of a splitter: the groups partition the source, slots and
//! releases are for good, groups are served first in, first out, and a
//! released group is in nobody's way.

use vstd::prelude::*;
use crate::advance::{Advance, Progress};
use crate::group_by::lemmas::{lemma_first_keys_cover, lemma_first_keys_push, lemma_items_of_push};
use crate::group_by::model::{
    first_keys, found_keys, gathered, items, items_of, joined, Announcement, Splitting,
};

verus! {

/// One more pair adds its item to the groups laid end to end exactly once,
/// if its key is among the distinct `keys`, and changes nothing otherwise.
pub proof fn lemma_gathered_push<K, T>(seen: Seq<(K, T)>, keys: Seq<K>, key: K, item: T)
    requires
        keys.no_duplicates(),
    ensures
        gathered(seen.push((key, item)), keys).to_multiset() == if keys.contains(key) {
            gathered(seen, keys).to_multiset().insert(item)
        } else {
            gathered(seen, keys).to_multiset()
        },
    decreases keys.len(),
{
    broadcast use vstd::seq_lib::group_to_multiset_ensures;

    if keys.len() > 0 {
        let front = keys.drop_last();
        let last = keys.last();
        assert(front.no_duplicates());
        lemma_gathered_push(seen, front, key, item);
        lemma_items_of_push(seen, key, item, last);
        let more = seen.push((key, item));
        vstd::seq_lib::lemma_multiset_commutative(gathered(more, front), items_of(more, last));
        vstd::seq_lib::lemma_multiset_commutative(gathered(seen, front), items_of(seen, last));
        assert(keys =~= front.push(last));
        if key == last {
            assert(!front.contains(key)) by {
                if front.contains(key) {
                    let at = front.index_of(key);
                    assert(keys[at] == keys[keys.len() - 1]);
                }
            }
            assert(keys[keys.len() - 1] == key);
            assert(gathered(more, keys).to_multiset() =~= gathered(
                seen,
                keys,
            ).to_multiset().insert(item));
        } else {
            assert(keys.contains(key) <==> front.contains(key)) by {
                if keys.contains(key) {
                    let at = keys.index_of(key);
                    assert(front[at] == key);
                }
                if front.contains(key) {
                    let at = front.index_of(key);
                    assert(keys[at] == key);
                }
            }
            assert(gathered(more, keys).to_multiset() =~= if keys.contains(key) {
                gathered(seen, keys).to_multiset().insert(item)
            } else {
                gathered(seen, keys).to_multiset()
            });
        }
    } else {
        assert(gathered(seen.push((key, item)), keys) =~= gathered(seen, keys));
    }
}

/// With nothing taken from the source, every group is empty.
pub proof fn lemma_gathered_nothing<K, T>(keys: Seq<K>)
    ensures
        gathered(Seq::<(K, T)>::empty(), keys) == Seq::<T>::empty(),
    decreases keys.len(),
{
    if keys.len() > 0 {
        lemma_gathered_nothing::<K, T>(keys.drop_last());
        assert(gathered(Seq::<(K, T)>::empty(), keys) =~= Seq::<T>::empty());
    }
}

/// Splitting loses and invents nothing: for distinct `keys` that cover every
/// key of `seen`, the groups laid end to end hold exactly the items of
/// `seen`, each as often as it was taken.
pub proof fn lemma_gathered_is_permutation<K, T>(seen: Seq<(K, T)>, keys: Seq<K>)
    requires
        keys.no_duplicates(),
        forall|j: int| 0 <= j < seen.len() ==> keys.contains(#[trigger] seen[j].0),
    ensures
        gathered(seen, keys).to_multiset() == items(seen).to_multiset(),
    decreases seen.len(),
{
    broadcast use vstd::seq_lib::group_to_multiset_ensures;

    if seen.len() == 0 {
        lemma_gathered_nothing::<K, T>(keys);
        assert(seen =~= Seq::<(K, T)>::empty());
        assert(items(seen) =~= Seq::<T>::empty());
    } else {
        let front = seen.drop_last();
        let (key, item) = seen.last();
        assert forall|j: int| 0 <= j < front.len() implies keys.contains(
            #[trigger] front[j].0,
        ) by {
            assert(0 <= j < seen.len() && front[j] == seen[j]);
        }
        lemma_gathered_is_permutation(front, keys);
        assert(seen =~= front.push((key, item)));
        lemma_gathered_push(front, keys, key, item);
        assert(keys.contains(seen[seen.len() - 1].0));
        assert(items(seen) =~= items(front).push(item));
        vstd::seq_lib::to_multiset_build(items(front), item);
        assert(gathered(seen, keys).to_multiset() == gathered(front, keys).to_multiset().insert(
            item,
        ));
    }
}

/// Laying sequences end to end depends only on the sequences.
proof fn lemma_joined_is_gathered<K, T>(seen: Seq<(K, T)>, keys: Seq<K>, parts: Seq<Seq<T>>)
    requires
        parts.len() == keys.len(),
        forall|i: int| 0 <= i < keys.len() ==> #[trigger] parts[i] == items_of(seen, keys[i]),
    ensures
        joined(parts) == gathered(seen, keys),
    decreases keys.len(),
{
    if keys.len() > 0 {
        lemma_joined_is_gathered(seen, keys.drop_last(), parts.drop_last());
        assert(parts.last() == parts[parts.len() - 1]);
    }
}

impl<K, T, E> Splitting<K, T, E> {
    /// Every item taken from the source has a slot, and only one: the keys
    /// of the slots are distinct, they are the distinct keys of the source in
    /// the order of their first occurrence, and discovery has handed out a
    /// front part of them, each once.
    pub proof fn lemma_slots_follow_discovery(self)
        requires
            self.inv(),
        ensures
            self.keys.no_duplicates(),
            self.keys == first_keys(self.seen),
            forall|j: int| 0 <= j < self.seen.len() ==> self.keys.contains(#[trigger] self.seen[j].0),
            self.announced.len() <= self.keys.len(),
            self.announced == self.keys.subrange(0, self.announced.len() as int),
            self.announced.no_duplicates(),
            forall|j: int|
                0 <= j < self.pending.len() ==> (#[trigger] self.pending[j] matches Announcement::Found(
                    key,
                    group,
                ) ==> group.index < self.keys.len() && self.keys[group.index as int] == key),
    {
        assert forall|j: int| 0 <= j < self.seen.len() implies self.keys.contains(
            #[trigger] self.seen[j].0,
        ) by {
            lemma_first_keys_cover(self.seen, self.seen[j].0);
        }
        let rest = found_keys(self.pending);
        assert((self.announced + rest).subrange(0, self.announced.len() as int) =~= self.announced);
    }

    /// A group that has not been released gets the items of its key in the
    /// order of their arrival, none lost and none twice: what it was handed
    /// so far, followed by what is buffered for it, is the run of the
    /// source's items with its key.
    pub proof fn lemma_group_keeps_arrival_order(self, index: int)
        requires
            self.inv(),
            self.is_live(index),
        ensures
            self.delivered[index] + self.queues[index].unwrap() == items_of(
                self.seen,
                self.keys[index],
            ),
    {
    }

    /// Once every group has been drained and none was released, the groups
    /// partition the source: each group was handed exactly the items of its
    /// key in arrival order, and the groups laid end to end in the order of
    /// discovery hold exactly the items of the source.
    pub proof fn lemma_drained_groups_partition_source(self)
        requires
            self.inv(),
            forall|i: int|
                0 <= i < self.queues.len() ==> #[trigger] self.queues[i] == Some(
                    Seq::<T>::empty(),
                ),
        ensures
            forall|i: int|
                0 <= i < self.keys.len() ==> #[trigger] self.delivered[i] == items_of(
                    self.seen,
                    self.keys[i],
                ),
            joined(self.delivered) == gathered(self.seen, self.keys),
            joined(self.delivered).to_multiset() == items(self.seen).to_multiset(),
    {
        assert forall|i: int| 0 <= i < self.keys.len() implies #[trigger] self.delivered[i]
            == items_of(self.seen, self.keys[i]) by {
            assert(self.is_live(i));
            assert(self.queues[i] == Some(Seq::<T>::empty()));
            assert(self.delivered[i] + Seq::<T>::empty() =~= self.delivered[i]);
        }
        self.lemma_slots_follow_discovery();
        lemma_joined_is_gathered(self.seen, self.keys, self.delivered);
        lemma_gathered_is_permutation(self.seen, self.keys);
    }

    /// Whatever the source produces and however its items are classified,
    /// taking them in splits them by key: the slots are the distinct keys in
    /// the order of their first occurrence, each slot buffers the items of
    /// its key in the order of their arrival, and the slots together hold
    /// every item exactly as often as the source produced it.
    pub proof fn lemma_fed_is_partitioned(input: Seq<(K, T)>)
        requires
            first_keys(input).len() <= usize::MAX,
        ensures
            Self::fed(input).inv(),
            Self::fed(input).seen == input,
            Self::fed(input).keys == first_keys(input),
            forall|i: int|
                0 <= i < first_keys(input).len() ==> #[trigger] Self::fed(input).queues[i] == Some(
                    items_of(input, first_keys(input)[i]),
                ),
            gathered(input, first_keys(input)).to_multiset() == items(input).to_multiset(),
        decreases input.len(),
    {
        let fed = Self::fed(input);
        if input.len() == 0 {
            Self::lemma_fresh_inv();
            assert(input =~= Seq::<(K, T)>::empty());
        } else {
            let front = input.drop_last();
            let (key, item) = input.last();
            assert(input =~= front.push((key, item)));
            lemma_first_keys_push(front, key, item);
            Self::lemma_fed_is_partitioned(front);
            let before = Self::fed(front);
            before.lemma_absorb_item_inv(key, item);
            assert(fed.seen =~= input);
            assert forall|i: int| 0 <= i < first_keys(input).len() implies #[trigger] fed.queues[i]
                == Some(items_of(input, first_keys(input)[i])) by {
                assert(fed.is_live(i));
                assert(fed.delivered[i] =~= Seq::<T>::empty()) by {
                    Self::lemma_fed_hands_nothing_out(input);
                }
                assert(fed.delivered[i] + fed.queues[i].unwrap() =~= fed.queues[i].unwrap());
            }
        }
        fed.lemma_slots_follow_discovery();
        lemma_gathered_is_permutation(input, first_keys(input));
    }

    /// Taking items in hands nothing out and releases nothing.
    proof fn lemma_fed_hands_nothing_out(input: Seq<(K, T)>)
        ensures
            Self::fed(input).keys.len() == Self::fed(input).queues.len(),
            Self::fed(input).delivered.len() == Self::fed(input).queues.len(),
            forall|i: int|
                0 <= i < Self::fed(input).delivered.len() ==> #[trigger] Self::fed(
                    input,
                ).delivered[i] == Seq::<T>::empty() && Self::fed(input).queues[i] is Some,
        decreases input.len(),
    {
        if input.len() > 0 {
            let before = Self::fed(input.drop_last());
            Self::lemma_fed_hands_nothing_out(input.drop_last());
            let key = input.last().0;
            if before.keys.contains(key) {
                let at = before.keys.index_of(key);
                assert(0 <= at < before.keys.len());
                assert(before.delivered[at] == Seq::<T>::empty() && before.queues[at] is Some);
            }
        }
    }

    /// A slot keeps its number and its key for good: no step removes a slot
    /// or gives it to another key, it only adds slots at the end.
    pub proof fn lemma_slots_are_kept(
        self,
        index: int,
        event: Option<Advance<(K, T), E>>,
        slot: int,
    )
        requires
            self.inv(),
            0 <= slot < self.keys.len(),
        ensures
            self.absorb(event).keys.len() >= self.keys.len(),
            self.absorb(event).keys[slot] == self.keys[slot],
            self.next_group(event).0.keys == self.absorb(event).keys,
            self.next_item(index, event).0.keys == self.absorb(event).keys,
            self.release(index).keys == self.keys,
    {
    }

    /// A release is for good: no step brings a released group back or
    /// buffers anything for it.
    pub proof fn lemma_release_is_permanent(
        self,
        released: int,
        index: int,
        event: Option<Advance<(K, T), E>>,
    )
        requires
            self.inv(),
            0 <= released < self.queues.len(),
            self.queues[released] is None,
            self.is_live(index),
        ensures
            self.absorb(event).queues[released] is None,
            self.next_group(event).0.queues[released] is None,
            self.next_item(index, event).0.queues[released] is None,
    {
    }

    /// A group is served first in, first out, one item at a time: the step
    /// of a group hands out the oldest item buffered for it once the event
    /// is taken in, removes that item and no other, and leaves the buffers
    /// of all other groups as they are.
    pub proof fn lemma_next_item_takes_the_oldest(
        self,
        index: int,
        event: Option<Advance<(K, T), E>>,
    )
        requires
            self.inv(),
            self.is_live(index),
        ensures
            ({
                let taken = self.absorb(event);
                let (next, answer) = self.next_item(index, event);
                let queue = taken.queues[index].unwrap();
                &&& queue.len() > 0 ==> answer == Progress::Settled(
                    Advance::<T, ()>::Item(queue[0]),
                ) && next.queues[index] == Some(queue.drop_first())
                &&& queue.len() == 0 ==> !(answer matches Progress::Settled(Advance::Item(_)))
                    && next == taken
                &&& forall|other: int|
                    0 <= other < taken.queues.len() && other != index ==> next.queues[other]
                        == taken.queues[other]
            }),
    {
    }

    /// A released group is in nobody's way at discovery: whatever the source
    /// hands in, discovery answers as if the group had not been released, and
    /// goes on to the state it would have gone on to.
    pub proof fn lemma_release_leaves_discovery(
        self,
        released: int,
        event: Option<Advance<(K, T), E>>,
    )
        requires
            self.inv(),
            0 <= released < self.queues.len(),
        ensures
            self.release(released).next_group(event).1 == self.next_group(event).1,
            self.release(released).next_group(event).0 == self.next_group(event).0.release(
                released,
            ),
    {
        self.lemma_release_leaves_absorb(released, event);
    }

    /// A released group is in no other group's way: whatever the source hands
    /// in, another live group answers as if the group had not been released,
    /// and goes on to the state it would have gone on to.
    pub proof fn lemma_release_leaves_other_groups(
        self,
        released: int,
        index: int,
        event: Option<Advance<(K, T), E>>,
    )
        requires
            self.inv(),
            0 <= released < self.queues.len(),
            self.is_live(index),
            index != released,
        ensures
            self.release(released).next_item(index, event).1 == self.next_item(index, event).1,
            self.release(released).next_item(index, event).0 == self.next_item(
                index,
                event,
            ).0.release(released),
    {
        self.lemma_release_leaves_absorb(released, event);
        let a = self.release(released).next_item(index, event).0;
        let b = self.next_item(index, event).0.release(released);
        assert(a.queues =~= b.queues);
    }

    /// Nothing is buffered for a released group, whatever arrives.
    pub proof fn lemma_released_group_buffers_nothing(
        self,
        released: int,
        event: Option<Advance<(K, T), E>>,
    )
        requires
            self.inv(),
            0 <= released < self.queues.len(),
        ensures
            self.release(released).absorb(event).queues[released] is None,
    {
    }

    /// Taking an outcome in and releasing a group can be done in either
    /// order.
    proof fn lemma_release_leaves_absorb(self, released: int, event: Option<Advance<(K, T), E>>)
        requires
            self.inv(),
            0 <= released < self.queues.len(),
        ensures
            self.release(released).absorb(event) == self.absorb(event).release(released),
    {
        let a = self.release(released).absorb(event);
        let b = self.absorb(event).release(released);
        assert(a.queues =~= b.queues);
    }
}

} // verus!
