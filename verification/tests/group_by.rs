use futures::stream;
use futures::Stream;
use std::hash::Hash;
use stream_tools::{Advance, Group, GroupBy, Progress};

fn next_group<K, S, F>(
    splitter: &mut GroupBy<K, S::Item, S::Error, F>,
    source: &mut S,
) -> Advance<(K, Group), S::Error>
where
    S: Stream,
    K: Clone + Eq + Hash,
    F: FnMut(&S::Item) -> K,
{
    let mut polled = None;
    loop {
        match splitter.poll_next_group(polled) {
            Progress::Settled(out) => return out,
            Progress::Again => polled = Some(Advance::from_poll(source.poll())),
        }
    }
}

fn next_item<K, S, F>(
    splitter: &mut GroupBy<K, S::Item, S::Error, F>,
    group: &Group,
    source: &mut S,
) -> Advance<S::Item, ()>
where
    S: Stream,
    K: Clone + Eq + Hash,
    F: FnMut(&S::Item) -> K,
{
    assert!(splitter.is_live(group));
    let mut polled = None;
    loop {
        match splitter.poll_next_group_item(group, polled) {
            Progress::Settled(out) => return out,
            Progress::Again => polled = Some(Advance::from_poll(source.poll())),
        }
    }
}

fn collect_groups<K, S, F>(
    splitter: &mut GroupBy<K, S::Item, S::Error, F>,
    source: &mut S,
) -> Result<Vec<(K, Group)>, S::Error>
where
    S: Stream,
    K: Clone + Eq + Hash,
    F: FnMut(&S::Item) -> K,
{
    let mut found = Vec::new();
    loop {
        match next_group(splitter, source) {
            Advance::Item(pair) => found.push(pair),
            Advance::End => return Ok(found),
            Advance::Failed(error) => return Err(error),
            Advance::NotReady => panic!("the source is always ready"),
        }
    }
}

fn collect_items<K, S, F>(
    splitter: &mut GroupBy<K, S::Item, S::Error, F>,
    group: &Group,
    source: &mut S,
) -> Result<Vec<S::Item>, ()>
where
    S: Stream,
    K: Clone + Eq + Hash,
    F: FnMut(&S::Item) -> K,
{
    let mut items = Vec::new();
    loop {
        match next_item(splitter, group, source) {
            Advance::Item(item) => items.push(item),
            Advance::End => return Ok(items),
            Advance::Failed(error) => return Err(error),
            Advance::NotReady => panic!("the source is always ready"),
        }
    }
}

#[test]
fn group_by_returns_each_group() {
    let results = vec!["A", "AB", "C", "ABC"];
    let mut stream = stream::iter_ok::<_, ()>(results);
    let mut group_by = GroupBy::new(|s: &&str| s.len());

    let group_keys: Vec<_> = collect_groups(&mut group_by, &mut stream)
        .expect("there should be no error getting the groups")
        .into_iter()
        .map(|(k, _)| k)
        .collect();

    assert_eq!(group_keys, vec![1, 2, 3]);
}

#[test]
fn groups_return_correct_items() {
    let results = vec!["A", "AB", "C", "ABC"];
    let mut stream = stream::iter_ok::<_, ()>(results);
    let mut group_by = GroupBy::new(|s: &&str| s.len());

    let mut groups: Vec<_> = collect_groups(&mut group_by, &mut stream)
        .expect("there should be no error getting the groups")
        .into_iter()
        .map(|(_, g)| g)
        .collect();

    let first_items: Vec<_> = collect_items(&mut group_by, &groups.remove(0), &mut stream)
        .expect("there should be no error reading items from the group");

    assert_eq!(first_items, vec!["A", "C"]);

    let second_items: Vec<_> = collect_items(&mut group_by, &groups.remove(0), &mut stream)
        .expect("there should be no error reading items from the group");

    assert_eq!(second_items, vec!["AB"]);

    let third_items: Vec<_> = collect_items(&mut group_by, &groups.remove(0), &mut stream)
        .expect("there should be no error reading items from the group");

    assert_eq!(third_items, vec!["ABC"]);
}

struct Script<T, E> {
    outcomes: std::collections::VecDeque<futures::Poll<Option<T>, E>>,
    polls: usize,
}

impl<T, E> Script<T, E> {
    fn new(outcomes: Vec<futures::Poll<Option<T>, E>>) -> Self {
        Script { outcomes: outcomes.into_iter().collect(), polls: 0 }
    }
}

impl<T, E> Stream for Script<T, E> {
    type Item = T;
    type Error = E;

    fn poll(&mut self) -> futures::Poll<Option<T>, E> {
        self.polls += 1;
        self.outcomes.pop_front().unwrap_or(Ok(futures::Async::Ready(None)))
    }
}

fn ready<T, E>(item: T) -> futures::Poll<Option<T>, E> {
    Ok(futures::Async::Ready(Some(item)))
}

fn not_ready<T, E>() -> futures::Poll<Option<T>, E> {
    Ok(futures::Async::NotReady)
}

#[test]
fn drained_groups_partition_the_source() {
    let input: Vec<u32> = vec![7, 2, 9, 4, 6, 1, 8, 3, 12, 5];
    let mut stream = stream::iter_ok::<_, ()>(input.clone());
    let mut splitter = GroupBy::new(|n: &u32| n % 3);

    let groups = collect_groups(&mut splitter, &mut stream).unwrap();
    let keys: Vec<u32> = groups.iter().map(|(k, _)| *k).collect();
    assert_eq!(keys, vec![1, 2, 0]);

    let mut all = Vec::new();
    for (key, group) in &groups {
        let items = collect_items(&mut splitter, group, &mut stream).unwrap();
        let expected: Vec<u32> = input.iter().cloned().filter(|n| n % 3 == *key).collect();
        assert_eq!(items, expected);
        all.extend(items);
    }
    assert_eq!(all, vec![7, 4, 1, 2, 8, 5, 9, 6, 3, 12]);
    let mut sorted_all = all.clone();
    sorted_all.sort();
    let mut sorted_input = input.clone();
    sorted_input.sort();
    assert_eq!(sorted_all, sorted_input);
}

#[test]
fn a_group_that_drives_the_source_buffers_for_the_others() {
    let mut stream = stream::iter_ok::<_, ()>(vec!["a", "bb", "cc", "ddd", "e", "ff"]);
    let mut splitter = GroupBy::new(|s: &&str| s.len());

    let (key, ones) = match next_group(&mut splitter, &mut stream) {
        Advance::Item(pair) => pair,
        other => panic!("expected a group, got {:?}", other),
    };
    assert_eq!(key, 1);
    assert_eq!(ones, Group { index: 0 });
    assert_eq!(splitter.slots(), 1);

    assert_eq!(next_item(&mut splitter, &ones, &mut stream), Advance::Item("a"));
    // The next item of this group lies behind three items of two new groups.
    assert_eq!(next_item(&mut splitter, &ones, &mut stream), Advance::Item("e"));
    assert_eq!(splitter.slots(), 3);

    // Discovery hands the groups out in the order in which they were found.
    let (key, twos) = match next_group(&mut splitter, &mut stream) {
        Advance::Item(pair) => pair,
        other => panic!("expected a group, got {:?}", other),
    };
    assert_eq!((key, twos.index), (2, 1));
    let (key, threes) = match next_group(&mut splitter, &mut stream) {
        Advance::Item(pair) => pair,
        other => panic!("expected a group, got {:?}", other),
    };
    assert_eq!((key, threes.index), (3, 2));

    assert_eq!(collect_items(&mut splitter, &twos, &mut stream), Ok(vec!["bb", "cc", "ff"]));
    assert_eq!(collect_items(&mut splitter, &threes, &mut stream), Ok(vec!["ddd"]));
    assert_eq!(next_item(&mut splitter, &ones, &mut stream), Advance::End);
    assert_eq!(next_group(&mut splitter, &mut stream), Advance::End);
}

#[test]
fn a_released_group_is_in_nobodys_way() {
    let mut stream = stream::iter_ok::<_, ()>(vec![1u32, 2, 3, 4, 5, 6, 7, 9, 8]);
    let mut splitter = GroupBy::new(|n: &u32| n % 2);

    let (_, odd) = match next_group(&mut splitter, &mut stream) {
        Advance::Item(pair) => pair,
        other => panic!("expected a group, got {:?}", other),
    };
    let (_, even) = match next_group(&mut splitter, &mut stream) {
        Advance::Item(pair) => pair,
        other => panic!("expected a group, got {:?}", other),
    };
    assert!(splitter.is_live(&odd));
    splitter.release(&odd);
    assert!(!splitter.is_live(&odd));
    assert!(splitter.is_live(&even));
    // The slot of the released group is not given away.
    assert_eq!(splitter.slots(), 2);

    assert_eq!(collect_items(&mut splitter, &even, &mut stream), Ok(vec![2, 4, 6, 8]));
    assert_eq!(next_group(&mut splitter, &mut stream), Advance::End);
    assert_eq!(splitter.slots(), 2);
}

#[test]
fn releasing_twice_changes_nothing() {
    let mut stream = stream::iter_ok::<_, ()>(vec![1u32, 2]);
    let mut splitter = GroupBy::new(|n: &u32| *n);
    let groups = collect_groups(&mut splitter, &mut stream).unwrap();
    splitter.release(&groups[0].1);
    splitter.release(&groups[0].1);
    assert!(!splitter.is_live(&groups[0].1));
    assert_eq!(collect_items(&mut splitter, &groups[1].1, &mut stream), Ok(vec![2]));
}

#[test]
fn an_unknown_handle_is_not_live() {
    let splitter: GroupBy<u32, u32, (), _> = GroupBy::new(|n: &u32| *n);
    assert_eq!(splitter.slots(), 0);
    assert!(!splitter.is_live(&Group { index: 0 }));
}

#[test]
fn discovery_passes_an_idle_source_on() {
    let mut stream: Script<u32, ()> = Script::new(vec![ready(4), not_ready(), ready(6), ready(5)]);
    let mut splitter = GroupBy::new(|n: &u32| n % 2);

    assert_eq!(next_group(&mut splitter, &mut stream), Advance::Item((0, Group { index: 0 })));
    assert_eq!(next_group(&mut splitter, &mut stream), Advance::NotReady);
    // 6 belongs to the known group and is buffered on the way to 5.
    assert_eq!(next_group(&mut splitter, &mut stream), Advance::Item((1, Group { index: 1 })));
    assert_eq!(next_item(&mut splitter, &Group { index: 0 }, &mut stream), Advance::Item(4));
    assert_eq!(next_item(&mut splitter, &Group { index: 0 }, &mut stream), Advance::Item(6));
    assert_eq!(next_item(&mut splitter, &Group { index: 1 }, &mut stream), Advance::Item(5));
    assert_eq!(next_item(&mut splitter, &Group { index: 1 }, &mut stream), Advance::End);
}

#[test]
fn a_group_passes_an_idle_source_on() {
    let mut stream: Script<u32, ()> = Script::new(vec![ready(4), not_ready(), ready(8)]);
    let mut splitter = GroupBy::new(|n: &u32| n % 2);
    let (_, even) = match next_group(&mut splitter, &mut stream) {
        Advance::Item(pair) => pair,
        other => panic!("expected a group, got {:?}", other),
    };
    assert_eq!(next_item(&mut splitter, &even, &mut stream), Advance::Item(4));
    assert_eq!(next_item(&mut splitter, &even, &mut stream), Advance::NotReady);
    assert_eq!(next_item(&mut splitter, &even, &mut stream), Advance::Item(8));
    assert_eq!(next_item(&mut splitter, &even, &mut stream), Advance::End);
}

#[test]
fn discovery_surfaces_a_failure_of_the_source_at_once() {
    let mut stream: Script<u32, &str> = Script::new(vec![ready(1), Err("broken"), ready(2)]);
    let mut splitter = GroupBy::new(|n: &u32| *n);

    assert_eq!(next_group(&mut splitter, &mut stream), Advance::Item((1, Group { index: 0 })));
    assert_eq!(next_group(&mut splitter, &mut stream), Advance::Failed("broken"));
    // The failure is final: the source is not asked again.
    let polls = stream.polls;
    assert_eq!(next_group(&mut splitter, &mut stream), Advance::End);
    assert_eq!(next_item(&mut splitter, &Group { index: 0 }, &mut stream), Advance::Item(1));
    assert_eq!(next_item(&mut splitter, &Group { index: 0 }, &mut stream), Advance::End);
    assert_eq!(stream.polls, polls);
}

#[test]
fn a_group_ends_on_a_failure_and_discovery_reports_it_once() {
    let mut stream: Script<u32, &str> =
        Script::new(vec![ready(1), ready(2), ready(3), Err("broken")]);
    let mut splitter = GroupBy::new(|n: &u32| n % 2);

    let (_, odd) = match next_group(&mut splitter, &mut stream) {
        Advance::Item(pair) => pair,
        other => panic!("expected a group, got {:?}", other),
    };
    assert_eq!(next_item(&mut splitter, &odd, &mut stream), Advance::Item(1));
    // Driving on finds the even group, the next odd item, and then the failure.
    assert_eq!(next_item(&mut splitter, &odd, &mut stream), Advance::Item(3));
    assert_eq!(next_item(&mut splitter, &odd, &mut stream), Advance::End);

    // Discovery first announces what was found before the failure.
    assert_eq!(next_group(&mut splitter, &mut stream), Advance::Item((0, Group { index: 1 })));
    assert_eq!(next_group(&mut splitter, &mut stream), Advance::Failed("broken"));
    assert_eq!(next_group(&mut splitter, &mut stream), Advance::End);
    assert_eq!(next_item(&mut splitter, &Group { index: 1 }, &mut stream), Advance::Item(2));
    assert_eq!(next_item(&mut splitter, &Group { index: 1 }, &mut stream), Advance::End);
}

#[test]
fn the_classifier_is_called_once_for_each_item() {
    let calls = std::cell::Cell::new(0usize);
    let mut stream = stream::iter_ok::<_, ()>(vec![1u32, 2, 3, 4, 5, 6]);
    let mut splitter = GroupBy::new(|n: &u32| {
        calls.set(calls.get() + 1);
        n % 3
    });
    let groups = collect_groups(&mut splitter, &mut stream).unwrap();
    for (_, group) in &groups {
        collect_items(&mut splitter, group, &mut stream).unwrap();
    }
    drop(splitter);
    assert_eq!(calls.get(), 6);
}

#[test]
fn a_step_answers_what_the_protocol_says() {
    let mut splitter: GroupBy<usize, &str, u8, _> = GroupBy::new(|s: &&str| s.len());
    assert_eq!(splitter.poll_next_group(None), Progress::Again);
    assert_eq!(splitter.poll_next_group(Some(Advance::NotReady)), Progress::Settled(Advance::NotReady));
    assert_eq!(
        splitter.poll_next_group(Some(Advance::Item("ab"))),
        Progress::Settled(Advance::Item((2, Group { index: 0 })))
    );
    // An item of a known group asks for the source again.
    assert_eq!(splitter.poll_next_group(Some(Advance::Item("cd"))), Progress::Again);
    assert_eq!(splitter.poll_next_group(Some(Advance::End)), Progress::Settled(Advance::End));

    let group = Group { index: 0 };
    assert_eq!(
        splitter.poll_next_group_item(&group, None),
        Progress::Settled(Advance::Item("ab"))
    );
    assert_eq!(
        splitter.poll_next_group_item(&group, None),
        Progress::Settled(Advance::Item("cd"))
    );
    assert_eq!(splitter.poll_next_group_item(&group, None), Progress::Again);
    assert_eq!(
        splitter.poll_next_group_item(&group, Some(Advance::Item("xyz"))),
        Progress::Again
    );
    assert_eq!(
        splitter.poll_next_group_item(&group, Some(Advance::Item("ef"))),
        Progress::Settled(Advance::Item("ef"))
    );
    assert_eq!(
        splitter.poll_next_group_item(&group, Some(Advance::Failed(3))),
        Progress::Settled(Advance::End)
    );
    assert_eq!(
        splitter.poll_next_group(None),
        Progress::Settled(Advance::Item((3, Group { index: 1 })))
    );
    assert_eq!(splitter.poll_next_group(None), Progress::Settled(Advance::Failed(3)));
    assert_eq!(splitter.poll_next_group(None), Progress::Settled(Advance::End));
    assert_eq!(splitter.poll_next_group_item(&group, None), Progress::Settled(Advance::End));
}

#[test]
fn an_empty_source_has_no_groups() {
    let mut stream = stream::iter_ok::<Vec<u32>, ()>(vec![]);
    let mut splitter = GroupBy::new(|n: &u32| *n);
    assert_eq!(next_group(&mut splitter, &mut stream), Advance::End);
    assert_eq!(splitter.slots(), 0);
}

#[test]
fn one_key_makes_one_group_with_every_item() {
    let mut stream = stream::iter_ok::<_, ()>(vec!["x", "y", "z"]);
    let mut splitter = GroupBy::new(|_: &&str| 'k');
    let groups = collect_groups(&mut splitter, &mut stream).unwrap();
    assert_eq!(groups, vec![('k', Group { index: 0 })]);
    assert_eq!(collect_items(&mut splitter, &groups[0].1, &mut stream), Ok(vec!["x", "y", "z"]));
}

#[test]
fn a_group_released_while_items_are_buffered_for_it_loses_them() {
    let mut stream = stream::iter_ok::<_, ()>(vec![1u32, 3, 2, 5, 4]);
    let mut splitter = GroupBy::new(|n: &u32| n % 2);
    // Discovery runs past 3 on its way to the even group, so 1 and 3 are buffered.
    let groups = collect_groups(&mut splitter, &mut stream).unwrap();
    assert_eq!(groups.len(), 2);
    let (odd, even) = (&groups[0].1, &groups[1].1);
    splitter.release(odd);
    assert_eq!(collect_items(&mut splitter, even, &mut stream), Ok(vec![2, 4]));
    assert!(!splitter.is_live(odd));
}
