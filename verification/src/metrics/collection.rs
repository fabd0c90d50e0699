use crate::protocol::grpc::worker as pb;
use crate::protocol::grpc::worker::{clone_bytes, TaskKey, TaskKeyView, WireMetricView};
use dashmap::DashMap;
use std::collections::hash_map::RandomState;
use vstd::prelude::*;

verus! {

/// A map that is safe to share.
#[verifier::external_type_specification]
#[verifier::external_body]
#[verifier::reject_recursive_types(K)]
#[verifier::reject_recursive_types(V)]
#[verifier::reject_recursive_types(S)]
pub struct ExDashMap<K, V, S>(dashmap::DashMap<K, V, S>);

/// What a map from task keys to positions holds.
pub uninterp spec fn map_contents(
    map: DashMap<(Vec<u8>, u64, u64), usize, RandomState>,
) -> Map<(Seq<u8>, u64, u64), usize>;

/// Calls `DashMap::new`: the map is empty.
#[verifier::external_body]
fn map_new() -> (map: DashMap<(Vec<u8>, u64, u64), usize, RandomState>)
    ensures
        map_contents(map).dom().is_empty(),
{
    DashMap::new()
}

/// Calls `DashMap::insert`: afterwards the key has the given value, and all the others have theirs.
#[verifier::external_body]
fn map_insert(
    map: &mut DashMap<(Vec<u8>, u64, u64), usize, RandomState>,
    key: (Vec<u8>, u64, u64),
    value: usize,
)
    ensures
        map_contents(*final(map)) == map_contents(*old(map)).insert(
            (key.0@, key.1, key.2),
            value,
        ),
{
    map.insert(key, value);
}

/// Calls `DashMap::get`: the value of the key, if it has one.
#[verifier::external_body]
fn map_get(
    map: &DashMap<(Vec<u8>, u64, u64), usize, RandomState>,
    key: &(Vec<u8>, u64, u64),
) -> (value: Option<usize>)
    ensures
        value == if map_contents(*map).contains_key((key.0@, key.1, key.2)) {
            Some(map_contents(*map)[(key.0@, key.1, key.2)])
        } else {
            None
        },
{
    map.get(key).map(|entry| *entry.value())
}

/// Calls `DashMap::iter` and copies what it yields: every key once, with its value, in some order.
#[verifier::external_body]
fn map_entries(map: &DashMap<(Vec<u8>, u64, u64), usize, RandomState>) -> (entries: Vec<
    ((Vec<u8>, u64, u64), usize),
>)
    ensures
        forall|i: int|
            0 <= i < entries@.len() ==> map_contents(*map).contains_pair(
                ((#[trigger] entries@[i]).0.0@, entries@[i].0.1, entries@[i].0.2),
                entries@[i].1,
            ),
        forall|i: int, j: int|
            0 <= i < j < entries@.len() ==> ((#[trigger] entries@[i]).0.0@, entries@[i].0.1, entries@[i].0.2)
                != ((#[trigger] entries@[j]).0.0@, entries@[j].0.1, entries@[j].0.2),
        forall|key: (Seq<u8>, u64, u64)| #[trigger]
            map_contents(*map).contains_key(key) ==> exists|i: int|
                0 <= i < entries@.len() && ((#[trigger] entries@[i]).0.0@, entries@[i].0.1, entries@[i].0.2)
                    == key,
{
    map.iter().map(|entry| (entry.key().clone(), *entry.value())).collect()
}

/// The metrics of the nodes of one task, in the order in which the task's plan is walked.
pub open spec fn sets_view(sets: Seq<pb::MetricsSet>) -> Seq<Seq<WireMetricView>> {
    Seq::new(sets.len(), |i: int| sets[i]@)
}

pub open spec fn key_parts(key: TaskKeyView) -> (Seq<u8>, u64, u64) {
    (key.query_id, key.stage_id, key.task_number)
}

pub open spec fn key_of_parts(parts: (Seq<u8>, u64, u64)) -> TaskKeyView {
    TaskKeyView { query_id: parts.0, stage_id: parts.1, task_number: parts.2 }
}

/// The metrics that were collected from tasks.
pub struct MetricsCollection {
    index: DashMap<(Vec<u8>, u64, u64), usize, RandomState>,
    slots: Vec<Vec<pb::MetricsSet>>,
}

impl View for MetricsCollection {
    type V = Map<TaskKeyView, Seq<Seq<WireMetricView>>>;

    closed spec fn view(&self) -> Map<TaskKeyView, Seq<Seq<WireMetricView>>> {
        Map::new(
            |key: TaskKeyView| map_contents(self.index).contains_key(key_parts(key)),
            |key: TaskKeyView|
                sets_view(self.slots@[map_contents(self.index)[key_parts(key)] as int]@),
        )
    }
}

/// Entries as they are taken out of a collection.
pub open spec fn entry_views(entries: Seq<(TaskKey, Vec<pb::MetricsSet>)>) -> Seq<
    (TaskKeyView, Seq<Seq<WireMetricView>>),
> {
    Seq::new(entries.len(), |i: int| (entries[i].0@, sets_view(entries[i].1@)))
}

/// The entries are those of the map: each key once, with what the map has for it.
pub open spec fn lists_map(
    entries: Seq<(TaskKeyView, Seq<Seq<WireMetricView>>)>,
    map: Map<TaskKeyView, Seq<Seq<WireMetricView>>>,
) -> bool {
    &&& forall|i: int|
        0 <= i < entries.len() ==> map.contains_pair((#[trigger] entries[i]).0, entries[i].1)
    &&& forall|i: int, j: int|
        0 <= i < j < entries.len() ==> (#[trigger] entries[i]).0 != (#[trigger] entries[j]).0
    &&& forall|key: TaskKeyView| #[trigger]
        map.contains_key(key) ==> exists|i: int|
            0 <= i < entries.len() && (#[trigger] entries[i]).0 == key
}

impl MetricsCollection {
    /// Every key has a place of its own for its metrics.
    pub closed spec fn wf(&self) -> bool {
        let index = map_contents(self.index);
        &&& forall|key: (Seq<u8>, u64, u64)| #[trigger]
            index.contains_key(key) ==> index[key] < self.slots@.len()
        &&& forall|a: (Seq<u8>, u64, u64), b: (Seq<u8>, u64, u64)| #[trigger]
            index.contains_key(a) && #[trigger] index.contains_key(b) && a != b ==> index[a]
                != index[b]
    }

    /// A collection without metrics.
    pub fn new() -> (collection: Self)
        ensures
            collection.wf(),
            collection@ == Map::<TaskKeyView, Seq<Seq<WireMetricView>>>::empty(),
    {
        let collection = MetricsCollection { index: map_new(), slots: Vec::new() };
        proof {
            assert(collection@ =~= Map::empty());
        }
        collection
    }

    /// Keeps the metrics of a task. If there were some already, they are replaced.
    pub fn insert(&mut self, key: TaskKey, metrics: Vec<pb::MetricsSet>)
        requires
            old(self).wf(),
        ensures
            final(self).wf(),
            final(self)@ == old(self)@.insert(key@, sets_view(metrics@)),
    {
        let slot: usize = self.slots.len();
        let ghost before = map_contents(self.index);
        let ghost parts = key_parts(key@);
        let ghost key_view = key@;
        let ghost metrics_view = sets_view(metrics@);
        let ghost old_slots = self.slots@;
        self.slots.push(metrics);
        map_insert(&mut self.index, (key.query_id, key.stage_id, key.task_number), slot);
        proof {
            let after = map_contents(self.index);
            assert(after == before.insert(parts, slot));
            assert forall|k: TaskKeyView| k != key_view implies key_parts(k) != parts by {
                assert(key_of_parts(key_parts(k)) =~= k);
                assert(key_of_parts(parts) =~= key_view);
            }
            assert(self@ =~= old(self)@.insert(key_view, metrics_view));
        }
    }

    /// The metrics of a task.
    pub fn get(&self, key: &TaskKey) -> (metrics: Option<&Vec<pb::MetricsSet>>)
        requires
            self.wf(),
        ensures
            match metrics {
                Some(metrics) => self@.contains_pair(key@, sets_view(metrics@)),
                None => !self@.contains_key(key@),
            },
    {
        let parts = (clone_bytes(&key.query_id), key.stage_id, key.task_number);
        match map_get(&self.index, &parts) {
            Some(slot) => Some(&self.slots[slot]),
            None => None,
        }
    }

    /// Takes the metrics of all the tasks out of the collection, which keeps its keys with no
    /// metrics for them. The order of the entries is not determined.
    pub fn take(&mut self) -> (entries: Vec<(TaskKey, Vec<pb::MetricsSet>)>)
        requires
            old(self).wf(),
        ensures
            final(self).wf(),
            lists_map(entry_views(entries@), old(self)@),
            final(self)@ == old(self)@.map_values(
                |metrics: Seq<Seq<WireMetricView>>| Seq::<Seq<WireMetricView>>::empty(),
            ),
    {
        let listed = map_entries(&self.index);
        let ghost index = map_contents(self.index);
        let ghost listed_view = listed@;
        let ghost old_view = self@;
        let ghost old_slots = self.slots@;
        let mut entries: Vec<(TaskKey, Vec<pb::MetricsSet>)> = Vec::new();
        for entry in it: listed
            invariant
                it.seq() == listed_view,
                index == map_contents(self.index),
                index == map_contents(old(self).index),
                old(self).wf(),
                old_view == old(self)@,
                old_slots == old(self).slots@,
                self.slots@.len() == old_slots.len(),
                forall|i: int|
                    0 <= i < listed_view.len() ==> index.contains_pair(
                        (
                            (#[trigger] listed_view[i]).0.0@,
                            listed_view[i].0.1,
                            listed_view[i].0.2,
                        ),
                        listed_view[i].1,
                    ),
                forall|i: int, j: int|
                    0 <= i < j < listed_view.len() ==> (
                        (#[trigger] listed_view[i]).0.0@,
                        listed_view[i].0.1,
                        listed_view[i].0.2,
                    ) != (
                        (#[trigger] listed_view[j]).0.0@,
                        listed_view[j].0.1,
                        listed_view[j].0.2,
                    ),
                entries@.len() == it.index(),
                forall|i: int|
                    0 <= i < it.index() ==> entry_views(entries@)[i] == (
                        key_of_parts(
                            (
                                (#[trigger] listed_view[i]).0.0@,
                                listed_view[i].0.1,
                                listed_view[i].0.2,
                            ),
                        ),
                        sets_view(old_slots[listed_view[i].1 as int]@),
                    ),
                forall|i: int|
                    0 <= i < it.index() ==> self.slots@[(#[trigger] listed_view[i]).1 as int]@
                        =~= Seq::<pb::MetricsSet>::empty(),
                forall|i: int|
                    it.index() <= i < listed_view.len() ==> self.slots@[(
                    #[trigger] listed_view[i]).1 as int] == old_slots[listed_view[i].1 as int],
        {
            let ghost n = it.index() as int;
            let ((query_id, stage_id, task_number), slot) = entry;
            let mut metrics: Vec<pb::MetricsSet> = Vec::new();
            proof {
                assert(listed_view[n] == entry);
                assert(index.contains_key((query_id@, stage_id, task_number)));
            }
            let ghost mid = self.slots@;
            std::mem::swap(&mut metrics, &mut self.slots[slot]);
            let ghost taken = metrics@;
            let ghost before = entries@;
            let ghost key_view = key_of_parts((query_id@, stage_id, task_number));
            entries.push((TaskKey { query_id, stage_id, task_number }, metrics));
            proof {
                assert(taken == old_slots[slot as int]@);
                assert(entries@[n].0@ =~= key_view);
                assert forall|i: int|
                    0 <= i < listed_view.len() && i != n implies (#[trigger] listed_view[i]).1
                    != slot by {
                    let a = (listed_view[i].0.0@, listed_view[i].0.1, listed_view[i].0.2);
                    let b = (listed_view[n].0.0@, listed_view[n].0.1, listed_view[n].0.2);
                    assert(index.contains_pair(a, listed_view[i].1));
                    assert(index.contains_pair(b, slot));
                    assert(a != b) by {
                        if i < n {
                        } else {
                        }
                    }
                }
                assert forall|i: int| 0 <= i < n implies entry_views(entries@)[i] == entry_views(
                    before,
                )[i] by {}
            }
        }
        proof {
            let views = entry_views(entries@);
            assert forall|i: int| 0 <= i < views.len() implies old_view.contains_pair(
                (#[trigger] views[i]).0,
                views[i].1,
            ) by {
                let parts = (listed_view[i].0.0@, listed_view[i].0.1, listed_view[i].0.2);
                assert(index.contains_pair(parts, listed_view[i].1));
                assert(key_parts(key_of_parts(parts)) == parts);
            }
            assert forall|i: int, j: int| 0 <= i < j < views.len() implies (#[trigger] views[i]).0
                != (#[trigger] views[j]).0 by {
                let a = (listed_view[i].0.0@, listed_view[i].0.1, listed_view[i].0.2);
                let b = (listed_view[j].0.0@, listed_view[j].0.1, listed_view[j].0.2);
                assert(a != b);
                assert(key_parts(key_of_parts(a)) == a);
                assert(key_parts(key_of_parts(b)) == b);
            }
            assert forall|key: TaskKeyView| #[trigger] old_view.contains_key(key) implies exists|
                i: int,
            | 0 <= i < views.len() && (#[trigger] views[i]).0 == key by {
                assert(index.contains_key(key_parts(key)));
                let i = choose|i: int|
                    0 <= i < listed_view.len() && (
                        (#[trigger] listed_view[i]).0.0@,
                        listed_view[i].0.1,
                        listed_view[i].0.2,
                    ) == key_parts(key);
                assert(key_of_parts(key_parts(key)) =~= key);
                assert(views[i].0 == key);
            }
            let emptied = old_view.map_values(
                |metrics: Seq<Seq<WireMetricView>>| Seq::<Seq<WireMetricView>>::empty(),
            );
            assert forall|key: TaskKeyView| #[trigger] self@.contains_key(key) implies self@[key]
                == emptied[key] by {
                assert(old_view.contains_key(key));
                assert(index.contains_key(key_parts(key)));
                let i = choose|i: int|
                    0 <= i < listed_view.len() && (
                        (#[trigger] listed_view[i]).0.0@,
                        listed_view[i].0.1,
                        listed_view[i].0.2,
                    ) == key_parts(key);
                assert(self.slots@[listed_view[i].1 as int]@ =~= Seq::empty());
                assert(self@[key] =~= Seq::empty());
            }
            assert(self@ =~= emptied);
        }
        entries
    }
}

} // verus!
