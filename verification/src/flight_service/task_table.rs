use crate::flight_service::do_get::{one_fewer, PartitionsRemaining};
use crate::protobuf::stage_proto::{StageKey, StageKeyView};
use crate::text::same_text;
use vstd::prelude::*;

verus! {

/// A task whose partitions are being read.
#[derive(Debug)]
pub struct RunningTask<T> {
    /// What the requests for different partitions share.
    pub data: T,
    /// Tells this run of the task apart from others under the same key.
    pub run: u64,
    pub remaining: PartitionsRemaining,
}

/// The tasks that a worker keeps while their partitions are read. A task that was asked for but could
/// not be read yet has a place of its own, too.
#[derive(Debug)]
pub struct TaskTable<T> {
    entries: Vec<(StageKey, Option<RunningTask<T>>)>,
    next_run: u64,
}

/// The contents of a [TaskTable].
#[verifier::ext_equal]
pub struct TasksView<T> {
    pub tasks: Map<StageKeyView, Option<RunningTask<T>>>,
    /// The number of the next run.
    pub next_run: u64,
}

spec fn is_place<T>(
    entries: Seq<(StageKey, Option<RunningTask<T>>)>,
    key: StageKeyView,
    i: int,
) -> bool {
    0 <= i < entries.len() && entries[i].0@ == key
}

spec fn entries_map<T>(entries: Seq<(StageKey, Option<RunningTask<T>>)>) -> Map<
    StageKeyView,
    Option<RunningTask<T>>,
> {
    Map::new(
        |key: StageKeyView| exists|i: int| is_place(entries, key, i),
        |key: StageKeyView| entries[choose|i: int| is_place(entries, key, i)].1,
    )
}

spec fn keys_differ<T>(entries: Seq<(StageKey, Option<RunningTask<T>>)>) -> bool {
    forall|i: int, j: int|
        0 <= i < j < entries.len() ==> (#[trigger] entries[i]).0@ != (#[trigger] entries[j]).0@
}

proof fn lemma_place<T>(entries: Seq<(StageKey, Option<RunningTask<T>>)>, i: int)
    requires
        keys_differ(entries),
        0 <= i < entries.len(),
    ensures
        entries_map(entries).contains_pair(entries[i].0@, entries[i].1),
{
    let key = entries[i].0@;
    assert(is_place(entries, key, i));
    let j = choose|j: int| is_place(entries, key, j);
    assert(is_place(entries, key, j));
    assert(i == j) by {
        if i < j {
            assert(entries[i].0@ != entries[j].0@);
        } else if j < i {
            assert(entries[j].0@ != entries[i].0@);
        }
    }
}

proof fn lemma_pushed<T>(
    entries: Seq<(StageKey, Option<RunningTask<T>>)>,
    entry: (StageKey, Option<RunningTask<T>>),
)
    requires
        keys_differ(entries),
        !entries_map(entries).contains_key(entry.0@),
    ensures
        keys_differ(entries.push(entry)),
        entries_map(entries.push(entry)) == entries_map(entries).insert(entry.0@, entry.1),
{
    let after = entries.push(entry);
    assert forall|i: int, j: int| 0 <= i < j < after.len() implies (#[trigger] after[i]).0@ != (
    #[trigger] after[j]).0@ by {
        assert(after[i] == entries[i]);
        if j == entries.len() {
            assert(is_place(entries, entries[i].0@, i));
        } else {
            assert(after[j] == entries[j]);
        }
    }
    let (m, n) = (entries_map(after), entries_map(entries).insert(entry.0@, entry.1));
    assert forall|key: StageKeyView| #[trigger]
        m.dom().contains(key) == n.dom().contains(key) && (m.dom().contains(key) ==> m[key] == n[key]) by {
        if m.contains_key(key) {
            let i = choose|i: int| is_place(after, key, i);
            assert(is_place(after, key, i));
            lemma_place(after, i);
            if i < entries.len() {
                assert(after[i] == entries[i]);
                lemma_place(entries, i);
            }
        }
        if n.contains_key(key) {
            if key == entry.0@ {
                assert(is_place(after, key, entries.len() as int));
            } else {
                let i = choose|i: int| is_place(entries, key, i);
                assert(is_place(entries, key, i));
                assert(is_place(after, key, i));
            }
        }
    }
    assert(m.dom() =~= n.dom());
    assert(m =~= n);
}

proof fn lemma_removed<T>(entries: Seq<(StageKey, Option<RunningTask<T>>)>, i: int)
    requires
        keys_differ(entries),
        0 <= i < entries.len(),
    ensures
        keys_differ(entries.remove(i)),
        entries_map(entries.remove(i)) == entries_map(entries).remove(entries[i].0@),
{
    let after = entries.remove(i);
    let removed = entries[i].0@;
    assert forall|a: int, b: int| 0 <= a < b < after.len() implies (#[trigger] after[a]).0@ != (
    #[trigger] after[b]).0@ by {
        let (c, d) = (if a < i { a } else { a + 1 }, if b < i { b } else { b + 1 });
        assert(after[a] == entries[c] && after[b] == entries[d]);
        assert(entries[c].0@ != entries[d].0@);
    }
    let (m, n) = (entries_map(after), entries_map(entries).remove(removed));
    assert forall|key: StageKeyView| #[trigger]
        m.dom().contains(key) == n.dom().contains(key) && (m.dom().contains(key) ==> m[key] == n[key]) by {
        if m.contains_key(key) {
            let a = choose|a: int| is_place(after, key, a);
            assert(is_place(after, key, a));
            lemma_place(after, a);
            let c = if a < i { a } else { a + 1 };
            assert(after[a] == entries[c]);
            lemma_place(entries, c);
            if c < i {
                assert(entries[c].0@ != entries[i].0@);
            } else {
                assert(entries[i].0@ != entries[c].0@);
            }
        }
        if n.contains_key(key) {
            let c = choose|c: int| is_place(entries, key, c);
            assert(is_place(entries, key, c));
            assert(c != i);
            let a = if c < i { c } else { c - 1 };
            assert(after[a] == entries[c]);
            assert(is_place(after, key, a));
        }
    }
    assert(m.dom() =~= n.dom());
    assert(m =~= n);
}

impl<T> View for TaskTable<T> {
    type V = TasksView<T>;

    closed spec fn view(&self) -> TasksView<T> {
        TasksView { tasks: entries_map(self.entries@), next_run: self.next_run }
    }
}

/// The tasks after one was asked for: there is a place for it.
pub open spec fn requested<T>(table: TasksView<T>, key: StageKeyView) -> TasksView<T> {
    if table.tasks.contains_key(key) {
        table
    } else {
        TasksView { tasks: table.tasks.insert(key, None), ..table }
    }
}

/// Whether a task is kept that can be read.
pub open spec fn is_running<T>(table: TasksView<T>, key: StageKeyView) -> bool {
    table.tasks.contains_key(key) && table.tasks[key] is Some
}

/// The tasks after what is needed to read one of them was made: it is kept, unless it is there already.
pub open spec fn stored<T>(
    table: TasksView<T>,
    key: StageKeyView,
    data: T,
    total_partitions: usize,
) -> TasksView<T> {
    if is_running(table, key) {
        table
    } else {
        let task = RunningTask {
            data,
            run: table.next_run,
            remaining: PartitionsRemaining { count: total_partitions },
        };
        TasksView {
            tasks: table.tasks.insert(key, Some(task)),
            next_run: if table.next_run == u64::MAX {
                0
            } else {
                (table.next_run + 1) as u64
            },
        }
    }
}

/// The tasks after a partition of a run of one of them was read, and whether it was the last one: the
/// task is then forgotten. What is read of a run that is over counts no more.
pub open spec fn finished<T>(table: TasksView<T>, key: StageKeyView, run: u64) -> (
    TasksView<T>,
    bool,
) {
    if is_running(table, key) && table.tasks[key]->0.run == run {
        let task = table.tasks[key]->0;
        if task.remaining.count == 1 {
            (TasksView { tasks: table.tasks.remove(key), ..table }, true)
        } else {
            let remaining = PartitionsRemaining { count: one_fewer(task.remaining.count) };
            (
                TasksView {
                    tasks: table.tasks.insert(key, Some(RunningTask { remaining, ..task })),
                    ..table
                },
                false,
            )
        }
    } else {
        (table, false)
    }
}

fn same_key(a: &StageKey, b: &StageKey) -> (same: bool)
    ensures
        same == (a@ == b@),
{
    a.stage_id == b.stage_id && a.task_number == b.task_number && same_text(
        a.query_id.as_str(),
        b.query_id.as_str(),
    )
}

impl<T> TaskTable<T> {
    /// No two places are for the same task.
    pub closed spec fn wf(&self) -> bool {
        keys_differ(self.entries@)
    }

    /// A table without tasks.
    pub fn new() -> (table: Self)
        ensures
            table.wf(),
            table@ == (TasksView::<T> { tasks: Map::empty(), next_run: 0 }),
    {
        let table = TaskTable { entries: Vec::new(), next_run: 0 };
        proof {
            assert forall|key: StageKeyView| !table@.tasks.contains_key(key) by {
                if table@.tasks.contains_key(key) {
                    let i = choose|i: int| is_place(table.entries@, key, i);
                    assert(is_place(table.entries@, key, i));
                }
            }
            assert(table@.tasks =~= Map::empty());
        }
        table
    }

    fn find_place(&self, key: &StageKey) -> (place: Option<usize>)
        requires
            self.wf(),
        ensures
            match place {
                Some(i) => i < self.entries@.len() && self.entries@[i as int].0@ == key@
                    && self@.tasks.contains_pair(key@, self.entries@[i as int].1),
                None => !self@.tasks.contains_key(key@),
            },
    {
        for i in 0..self.entries.len()
            invariant
                self.wf(),
                forall|j: int| 0 <= j < i ==> (#[trigger] self.entries@[j]).0@ != key@,
        {
            if same_key(&self.entries[i].0, key) {
                proof {
                    lemma_place(self.entries@, i as int);
                }
                return Some(i);
            }
        }
        proof {
            if self@.tasks.contains_key(key@) {
                let i = choose|i: int| is_place(self.entries@, key@, i);
                assert(is_place(self.entries@, key@, i));
            }
        }
        None
    }

    /// The keys of all the tasks that have a place, in no particular order.
    pub fn keys(&self) -> (keys: Vec<StageKey>)
        requires
            self.wf(),
        ensures
            forall|i: int|
                0 <= i < keys@.len() ==> self@.tasks.contains_key((#[trigger] keys@[i])@),
            forall|i: int, j: int|
                0 <= i < j < keys@.len() ==> (#[trigger] keys@[i])@ != (#[trigger] keys@[j])@,
            forall|key: StageKeyView| #[trigger]
                self@.tasks.contains_key(key) ==> exists|i: int|
                    0 <= i < keys@.len() && (#[trigger] keys@[i])@ == key,
    {
        let mut keys: Vec<StageKey> = Vec::new();
        for i in 0..self.entries.len()
            invariant
                keys@.len() == i,
                forall|j: int| 0 <= j < i ==> (#[trigger] keys@[j])@ == self.entries@[j].0@,
        {
            keys.push(self.entries[i].0.clone());
        }
        proof {
            assert forall|i: int| 0 <= i < keys@.len() implies self@.tasks.contains_key(
                (#[trigger] keys@[i])@,
            ) by {
                lemma_place(self.entries@, i);
            }
            assert forall|key: StageKeyView| #[trigger]
                self@.tasks.contains_key(key) implies exists|i: int|
                0 <= i < keys@.len() && (#[trigger] keys@[i])@ == key by {
                let i = choose|i: int| is_place(self.entries@, key, i);
                assert(is_place(self.entries@, key, i));
                assert(keys@[i]@ == key);
            }
        }
        keys
    }

    /// The task that has the given key, once it can be read.
    pub fn find(&self, key: &StageKey) -> (task: Option<&RunningTask<T>>)
        requires
            self.wf(),
        ensures
            match task {
                Some(task) => self@.tasks.contains_pair(key@, Some(*task)),
                None => !is_running(self@, key@),
            },
    {
        match self.find_place(key) {
            Some(i) => match &self.entries[i].1 {
                Some(task) => Some(task),
                None => None,
            },
            None => None,
        }
    }

    /// Makes a place for a task that was asked for.
    pub fn request(&mut self, key: &StageKey)
        requires
            old(self).wf(),
        ensures
            final(self).wf(),
            final(self)@ == requested(old(self)@, key@),
    {
        if self.find_place(key).is_none() {
            let entry = (key.clone(), None);
            proof {
                lemma_pushed(self.entries@, entry);
            }
            self.entries.push(entry);
        }
    }

    /// Keeps what is needed to read a task with the given number of partitions, unless it is there
    /// already.
    pub fn store(&mut self, key: &StageKey, data: T, total_partitions: usize)
        requires
            old(self).wf(),
        ensures
            final(self).wf(),
            final(self)@ == stored(old(self)@, key@, data, total_partitions),
    {
        let ghost before = self@.tasks;
        match self.find_place(key) {
            Some(i) => {
                if self.entries[i].1.is_some() {
                    return;
                }
                proof {
                    lemma_removed(self.entries@, i as int);
                }
                self.entries.remove(i);
            },
            None => {
                proof {
                    assert(before.remove(key@) =~= before);
                }
            },
        }
        let remaining = PartitionsRemaining::new(total_partitions);
        let entry = (key.clone(), Some(RunningTask { data, run: self.next_run, remaining }));
        proof {
            lemma_pushed(self.entries@, entry);
            assert(before.remove(key@).insert(key@, entry.1) =~= before.insert(key@, entry.1));
        }
        self.entries.push(entry);
        self.next_run = self.next_run.wrapping_add(1);
    }

    /// Takes note that a partition of a run of a task was read, and tells whether it was the last one:
    /// the task is then forgotten.
    pub fn finish_one(&mut self, key: &StageKey, run: u64) -> (last: bool)
        requires
            old(self).wf(),
        ensures
            final(self).wf(),
            (final(self)@, last) == finished(old(self)@, key@, run),
    {
        let ghost before = self@.tasks;
        let i: usize = match self.find_place(key) {
            Some(i) => i,
            None => {
                return false;
            },
        };
        let is_current = match &self.entries[i].1 {
            Some(task) => task.run == run,
            None => false,
        };
        if !is_current {
            return false;
        }
        proof {
            lemma_removed(self.entries@, i as int);
        }
        let (key, task) = self.entries.remove(i);
        match task {
            Some(task) => {
                let mut task = task;
                if task.remaining.finish_one() {
                    return true;
                }
                let ghost key_view = key@;
                let entry = (key, Some(task));
                proof {
                    lemma_pushed(self.entries@, entry);
                    assert(before.remove(key_view).insert(key_view, entry.1) =~= before.insert(
                        key_view,
                        entry.1,
                    ));
                }
                self.entries.push(entry);
                false
            },
            None => false,
        }
    }
}

/// Something that happens to the tasks that a worker keeps.
pub enum TaskEvent<T> {
    /// A task is asked for.
    Request(StageKeyView),
    /// What is needed to read a task is made.
    Store(StageKeyView, T, usize),
    /// A partition of a run of a task was read.
    Finish(StageKeyView, u64),
}

/// The task that something happens to.
pub open spec fn event_key<T>(event: TaskEvent<T>) -> StageKeyView {
    match event {
        TaskEvent::Request(key) => key,
        TaskEvent::Store(key, _, _) => key,
        TaskEvent::Finish(key, _) => key,
    }
}

/// The tasks after something happened.
pub open spec fn after_event<T>(table: TasksView<T>, event: TaskEvent<T>) -> TasksView<T> {
    match event {
        TaskEvent::Request(key) => requested(table, key),
        TaskEvent::Store(key, data, total_partitions) => stored(table, key, data, total_partitions),
        TaskEvent::Finish(key, run) => finished(table, key, run).0,
    }
}

/// The tasks after several things happened, one after the other.
pub open spec fn after_events<T>(table: TasksView<T>, events: Seq<TaskEvent<T>>) -> TasksView<T>
    decreases events.len(),
{
    if events.len() == 0 {
        table
    } else {
        after_event(after_events(table, events.drop_last()), events.last())
    }
}

/// How many partitions of a run of a task are read.
pub open spec fn partitions_read<T>(events: Seq<TaskEvent<T>>, key: StageKeyView, run: u64) -> nat
    decreases events.len(),
{
    if events.len() == 0 {
        0
    } else {
        partitions_read(events.drop_last(), key, run) + if events.last() == TaskEvent::<T>::Finish(
            key,
            run,
        ) {
            1nat
        } else {
            0
        }
    }
}

/// What happens to some tasks adds, drops or changes no other task.
pub proof fn other_tasks_are_left_alone<T>(
    table: TasksView<T>,
    events: Seq<TaskEvent<T>>,
    other: StageKeyView,
)
    requires
        forall|i: int| 0 <= i < events.len() ==> event_key(#[trigger] events[i]) != other,
    ensures
        after_events(table, events).tasks.contains_key(other) == table.tasks.contains_key(other),
        table.tasks.contains_key(other) ==> after_events(table, events).tasks[other]
            == table.tasks[other],
    decreases events.len(),
{
    if events.len() > 0 {
        other_tasks_are_left_alone(table, events.drop_last(), other);
        assert(event_key(events[events.len() - 1]) != other);
    }
}

/// A task is kept until the last of its partitions has been read, whatever happens to other tasks and
/// however often it is asked for meanwhile: after as many reads as it had partitions it is gone, and
/// after fewer it is still there.
pub proof fn tasks_are_kept_until_their_last_partition<T>(
    table: TasksView<T>,
    events: Seq<TaskEvent<T>>,
    key: StageKeyView,
)
    requires
        is_running(table, key),
        ({
            let task = table.tasks[key]->0;
            0 < task.remaining.count && partitions_read(events, key, task.run)
                <= task.remaining.count
        }),
    ensures
        ({
            let task = table.tasks[key]->0;
            let read = partitions_read(events, key, task.run);
            let after = after_events(table, events).tasks;
            &&& read < task.remaining.count ==> after.contains_pair(
                key,
                Some(
                    RunningTask {
                        remaining: PartitionsRemaining {
                            count: (task.remaining.count - read) as usize,
                        },
                        ..task
                    },
                ),
            )
            &&& read == task.remaining.count && events.last() == TaskEvent::<T>::Finish(
                key,
                task.run,
            ) ==> !after.contains_key(key)
        }),
    decreases events.len(),
{
    if events.len() > 0 {
        tasks_are_kept_until_their_last_partition(table, events.drop_last(), key);
    }
}

/// A task that was stored can be read: with the data and the partitions that it was stored with first, in
/// a run of its own. Storing it again while it is read changes nothing.
pub proof fn stored_tasks_can_be_read<T>(
    table: TasksView<T>,
    key: StageKeyView,
    data: T,
    total_partitions: usize,
)
    ensures
        is_running(stored(table, key, data, total_partitions), key),
        !is_running(table, key) ==> {
            let task = stored(table, key, data, total_partitions).tasks[key]->0;
            &&& task.data == data
            &&& task.remaining.count == total_partitions
            &&& task.run == table.next_run
            &&& stored(table, key, data, total_partitions).next_run != table.next_run
        },
        is_running(table, key) ==> stored(table, key, data, total_partitions) == table,
        requested(table, key).tasks.contains_key(key),
        is_running(requested(table, key), key) == is_running(table, key),
{
}

/// What is read of another run of a task does not count.
pub proof fn other_runs_do_not_count<T>(table: TasksView<T>, key: StageKeyView, run: u64)
    requires
        is_running(table, key) ==> table.tasks[key]->0.run != run,
    ensures
        finished(table, key, run) == (table, false),
{
}

} // verus!
