//! The steps of the model keep its invariant.

use vstd::prelude::*;
use crate::advance::Advance;
use crate::group_by::model::{first_keys, found_keys, items_of, Announcement, Group, Splitting};

verus! {

/// Taking one more pair extends the items of its own key and of no other.
pub proof fn lemma_items_of_push<K, T>(seen: Seq<(K, T)>, key: K, item: T, other: K)
    ensures
        items_of(seen.push((key, item)), other) == if key == other {
            items_of(seen, other).push(item)
        } else {
            items_of(seen, other)
        },
{
    assert(seen.push((key, item)).drop_last() =~= seen);
}

/// A key that no pair has contributes no items.
pub proof fn lemma_items_of_none<K, T>(seen: Seq<(K, T)>, key: K)
    requires
        forall|j: int| 0 <= j < seen.len() ==> seen[j].0 != key,
    ensures
        items_of(seen, key) == Seq::<T>::empty(),
    decreases seen.len(),
{
    if seen.len() > 0 {
        lemma_items_of_none(seen.drop_last(), key);
    }
}

/// Taking one more pair adds its key at the end unless the key is known.
pub proof fn lemma_first_keys_push<K, T>(seen: Seq<(K, T)>, key: K, item: T)
    ensures
        first_keys(seen.push((key, item))) == if first_keys(seen).contains(key) {
            first_keys(seen)
        } else {
            first_keys(seen).push(key)
        },
{
    assert(seen.push((key, item)).drop_last() =~= seen);
}

/// The announcements' keys grow at the end with each discovery.
pub proof fn lemma_found_keys_push<K, E>(pending: Seq<Announcement<K, E>>, last: Announcement<K, E>)
    ensures
        found_keys(pending.push(last)) == match last {
            Announcement::Found(key, _) => found_keys(pending).push(key),
            Announcement::Failed(_) => found_keys(pending),
        },
{
    assert(pending.push(last).drop_last() =~= pending);
}

/// The announcements' keys shrink at the front when the oldest one leaves.
pub proof fn lemma_found_keys_drop_first<K, E>(pending: Seq<Announcement<K, E>>)
    requires
        pending.len() > 0,
    ensures
        found_keys(pending) == match pending[0] {
            Announcement::Found(key, _) => seq![key] + found_keys(pending.drop_first()),
            Announcement::Failed(_) => found_keys(pending.drop_first()),
        },
    decreases pending.len(),
{
    if pending.len() == 1 {
        assert(pending.drop_last() =~= Seq::<Announcement<K, E>>::empty());
        assert(pending.drop_first() =~= Seq::<Announcement<K, E>>::empty());
        assert(found_keys(pending.drop_last()) =~= Seq::<K>::empty());
        match pending[0] {
            Announcement::Found(key, _) => {
                assert(found_keys(pending) =~= seq![key] + found_keys(pending.drop_first()));
            },
            Announcement::Failed(_) => {},
        }
    } else {
        let front = pending.drop_last();
        lemma_found_keys_drop_first(front);
        assert(front.drop_first() =~= pending.drop_first().drop_last());
        assert(pending.drop_first().last() == pending.last());
        assert(front[0] == pending[0]);
        let rest = found_keys(front.drop_first());
        match pending.last() {
            Announcement::Found(last_key, _) => {
                match pending[0] {
                    Announcement::Found(key, _) => {
                        assert((seq![key] + rest).push(last_key) =~= seq![key] + rest.push(
                            last_key,
                        ));
                    },
                    Announcement::Failed(_) => {},
                }
            },
            Announcement::Failed(_) => {},
        }
    }
}

/// A key is among the first keys exactly if some pair taken so far has it.
pub proof fn lemma_first_keys_cover<K, T>(seen: Seq<(K, T)>, key: K)
    ensures
        first_keys(seen).contains(key) <==> exists|j: int| 0 <= j < seen.len() && seen[j].0 == key,
    decreases seen.len(),
{
    if seen.len() > 0 {
        let front = seen.drop_last();
        lemma_first_keys_cover(front, key);
        let before = first_keys(front);
        if first_keys(seen).contains(key) {
            if before.contains(key) {
                let j = choose|j: int| 0 <= j < front.len() && front[j].0 == key;
                assert(seen[j].0 == key);
            } else {
                assert(before.push(seen.last().0).contains(key));
                let at = choose|at: int|
                    0 <= at < before.push(seen.last().0).len() && before.push(seen.last().0)[at]
                        == key;
                assert(at == before.len());
                assert(seen[seen.len() - 1].0 == key);
            }
        }
        if exists|j: int| 0 <= j < seen.len() && seen[j].0 == key {
            let j = choose|j: int| 0 <= j < seen.len() && seen[j].0 == key;
            if j < front.len() {
                assert(front[j].0 == key);
                assert(before.contains(key));
                if !before.contains(seen.last().0) {
                    let at = choose|at: int| 0 <= at < before.len() && before[at] == key;
                    assert(before.push(seen.last().0)[at] == key);
                }
            } else {
                if !before.contains(seen.last().0) {
                    assert(before.push(seen.last().0)[before.len() as int] == key);
                }
            }
        }
    }
}

impl<K, T, E> Splitting<K, T, E> {
    /// The fresh splitter satisfies the invariant.
    pub proof fn lemma_fresh_inv()
        ensures
            Self::fresh().inv(),
    {
        assert(Seq::<K>::empty() + found_keys(Seq::<Announcement<K, E>>::empty()) =~= Seq::<
            K,
        >::empty());
    }

    /// Taking an item in keeps the invariant, as long as a new slot can
    /// still be numbered.
    pub proof fn lemma_absorb_item_inv(self, key: K, item: T)
        requires
            self.inv(),
            self.keys.contains(key) || self.keys.len() < usize::MAX,
        ensures
            self.absorb_item(key, item).inv(),
    {
        let next = self.absorb_item(key, item);
        lemma_first_keys_push(self.seen, key, item);
        assert forall|i: int| #[trigger] next.is_live(i) implies next.delivered[i]
            + next.queues[i].unwrap() == items_of(next.seen, next.keys[i]) by {
            if i < self.keys.len() {
                lemma_items_of_push(self.seen, key, item, self.keys[i]);
                assert(self.is_live(i));
                if self.keys.contains(key) && self.keys.index_of(key) == i {
                    assert(self.delivered[i] + self.queues[i].unwrap().push(item) =~= (
                    self.delivered[i] + self.queues[i].unwrap()).push(item));
                }
            } else {
                lemma_items_of_push(self.seen, key, item, key);
                lemma_first_keys_cover(self.seen, key);
                lemma_items_of_none(self.seen, key);
                assert(Seq::<T>::empty() + seq![item] =~= Seq::<T>::empty().push(item));
            }
        }
        if !self.keys.contains(key) {
            let found = Announcement::<K, E>::Found(key, Group { index: self.keys.len() as usize });
            lemma_found_keys_push(self.pending, found);
            assert(self.announced + found_keys(self.pending).push(key) =~= (self.announced
                + found_keys(self.pending)).push(key));
            assert forall|j: int| 0 <= j < next.pending.len() implies (
            #[trigger] next.pending[j] matches Announcement::Found(k, g) ==> g.index
                < next.keys.len() && next.keys[g.index as int] == k) by {
                if j < self.pending.len() {
                    assert(next.pending[j] == self.pending[j]);
                }
            }
        }
    }

    /// Taking any outcome in keeps the invariant.
    pub proof fn lemma_absorb_inv(self, event: Option<Advance<(K, T), E>>)
        requires
            self.inv(),
            event matches Some(Advance::Item((key, _))) ==> self.keys.contains(key)
                || self.keys.len() < usize::MAX,
        ensures
            self.absorb(event).inv(),
    {
        let next = self.absorb(event);
        match event {
            Some(Advance::Item((key, item))) => {
                self.lemma_absorb_item_inv(key, item);
            },
            Some(Advance::Failed(error)) => {
                lemma_found_keys_push(self.pending, Announcement::Failed(error));
                assert forall|j: int| 0 <= j < next.pending.len() implies (
                #[trigger] next.pending[j] matches Announcement::Found(k, g) ==> g.index
                    < next.keys.len() && next.keys[g.index as int] == k) by {
                    if j < self.pending.len() {
                        assert(next.pending[j] == self.pending[j]);
                    }
                }
                assert forall|i: int| #[trigger] next.is_live(i) implies next.delivered[i]
                    + next.queues[i].unwrap() == items_of(next.seen, next.keys[i]) by {
                    assert(self.is_live(i));
                }
            },
            _ => {},
        }
    }

    /// A step of discovery keeps the invariant.
    pub proof fn lemma_next_group_inv(self, event: Option<Advance<(K, T), E>>)
        requires
            self.inv(),
            event matches Some(Advance::Item((key, _))) ==> self.keys.contains(key)
                || self.keys.len() < usize::MAX,
        ensures
            self.next_group(event).0.inv(),
    {
        self.lemma_absorb_inv(event);
        let taken = self.absorb(event);
        let next = self.next_group(event).0;
        if taken.pending.len() > 0 {
            lemma_found_keys_drop_first(taken.pending);
            match taken.pending[0] {
                Announcement::Found(key, _) => {
                    assert(taken.announced.push(key) + found_keys(taken.pending.drop_first())
                        =~= taken.announced + (seq![key] + found_keys(
                        taken.pending.drop_first(),
                    )));
                },
                Announcement::Failed(_) => {},
            }
            assert forall|j: int| 0 <= j < next.pending.len() implies (
            #[trigger] next.pending[j] matches Announcement::Found(k, g) ==> g.index
                < next.keys.len() && next.keys[g.index as int] == k) by {
                assert(next.pending[j] == taken.pending[j + 1]);
            }
            assert forall|i: int| #[trigger] next.is_live(i) implies next.delivered[i]
                + next.queues[i].unwrap() == items_of(next.seen, next.keys[i]) by {
                assert(taken.is_live(i));
            }
        }
    }

    /// A step of a live group keeps the invariant.
    pub proof fn lemma_next_item_inv(self, index: int, event: Option<Advance<(K, T), E>>)
        requires
            self.inv(),
            self.is_live(index),
            event matches Some(Advance::Item((key, _))) ==> self.keys.contains(key)
                || self.keys.len() < usize::MAX,
        ensures
            self.absorb(event).is_live(index),
            self.next_item(index, event).0.inv(),
            self.next_item(index, event).0.is_live(index),
    {
        self.lemma_absorb_inv(event);
        self.lemma_absorb_keeps_live(index, event);
        let taken = self.absorb(event);
        let next = self.next_item(index, event).0;
        let queue = taken.queues[index].unwrap();
        if queue.len() > 0 {
            assert forall|i: int| #[trigger] next.is_live(i) implies next.delivered[i]
                + next.queues[i].unwrap() == items_of(next.seen, next.keys[i]) by {
                assert(taken.is_live(i));
                if i == index {
                    assert(taken.delivered[i].push(queue[0]) + queue.drop_first()
                        =~= taken.delivered[i] + queue);
                }
            }
        }
    }

    /// Taking an outcome in releases no group.
    pub proof fn lemma_absorb_keeps_live(self, index: int, event: Option<Advance<(K, T), E>>)
        requires
            self.inv(),
            self.is_live(index),
        ensures
            self.absorb(event).is_live(index),
    {
    }

    /// Releasing a group keeps the invariant.
    pub proof fn lemma_release_inv(self, index: int)
        requires
            self.inv(),
            0 <= index < self.queues.len(),
        ensures
            self.release(index).inv(),
            !self.release(index).is_live(index),
    {
        let next = self.release(index);
        assert forall|i: int| #[trigger] next.is_live(i) implies next.delivered[i]
            + next.queues[i].unwrap() == items_of(next.seen, next.keys[i]) by {
            assert(self.is_live(i));
        }
    }
}

} // verus!
