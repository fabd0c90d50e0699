use crate::execution_plans::partition_range::TaskMetrics;
use crate::metrics::collection::{entry_views, lists_map, sets_view};
use crate::metrics::executed_plan::{collections_wf, ExecutedPlan, ExecutedView};
use crate::metrics::metric::MetricView;
use crate::metrics::task_metrics_collector::{
    collect_plan, df_sets_view, drained, nothing_collected, DuplicateTaskMetrics,
    TaskMetricsCollector,
};
use crate::protobuf::stage_proto::StageKey;
use crate::protocol::grpc::metrics_proto::{
    df_metrics_set_to_proto, set_to_wire, MetricsProtoError, MetricsProtoErrorView,
};
use crate::protocol::grpc::worker::{MetricsSet, TaskKey, TaskKeyView, WireMetricView};
use crate::text::{decimal, push_usize};
use vstd::prelude::*;

verus! {

/// Asks a worker for one partition of a task.
#[derive(Debug, PartialEq, Eq)]
pub struct DoGet {
    /// The message of the stage.
    pub stage_proto: Vec<u8>,
    pub target_task_index: u64,
    pub target_partition: u64,
    /// Tells the task apart without reading the message.
    pub stage_key: Option<StageKey>,
}

/// Why a request is refused.
#[derive(Debug, PartialEq, Eq)]
pub enum GetError {
    MissingField(&'static str),
    NoSuchPartition { partition: usize, plan_name: String, partition_count: usize },
}

/// The text for a field that is missing in a request.
pub open spec fn missing_text(field: Seq<char>) -> Seq<char> {
    "Missing field '"@ + field + "'"@
}

/// The text for a partition that a task does not have.
pub open spec fn no_such_partition_text(
    partition: usize,
    plan_name: Seq<char>,
    partition_count: usize,
) -> Seq<char> {
    "partition "@ + decimal(partition as nat) + " not available. The head plan "@ + plan_name
        + " of the stage just has "@ + decimal(partition_count as nat) + " partitions"@
}

impl GetError {
    /// The text of the error.
    pub fn message(&self) -> (text: String)
        ensures
            match *self {
                GetError::MissingField(field) => text@ == missing_text(field@),
                GetError::NoSuchPartition {
                    partition,
                    plan_name,
                    partition_count,
                } => text@ == no_such_partition_text(partition, plan_name@, partition_count),
            },
    {
        let mut text = String::new();
        match self {
            GetError::MissingField(field) => {
                text.push_str("Missing field '");
                text.push_str(field);
                text.push_str("'");
                proof {
                    assert(text@ =~= missing_text(field@));
                }
            },
            GetError::NoSuchPartition { partition, plan_name, partition_count } => {
                text.push_str("partition ");
                push_usize(&mut text, *partition);
                text.push_str(" not available. The head plan ");
                text.push_str(plan_name.as_str());
                text.push_str(" of the stage just has ");
                push_usize(&mut text, *partition_count);
                text.push_str(" partitions");
                proof {
                    assert(text@ =~= no_such_partition_text(
                        *partition,
                        plan_name@,
                        *partition_count,
                    ));
                }
            },
        }
        text
    }
}

impl DoGet {
    /// The task that is asked for.
    pub fn key(&self) -> (result: Result<&StageKey, GetError>)
        ensures
            match self.stage_key {
                Some(key) => result matches Ok(k) && *k == key,
                None => result matches Err(GetError::MissingField(field)) && field@ == "stage_key"@,
            },
    {
        match &self.stage_key {
            Some(key) => Ok(key),
            None => Err(GetError::MissingField("stage_key")),
        }
    }

    /// The partition that is asked for, of the partitions that the plan of the task has.
    pub fn partition(&self, plan_name: &str, partition_count: usize) -> (result: Result<
        usize,
        GetError,
    >)
        ensures
            ({
                let target = self.target_partition as usize;
                if target < partition_count {
                    result == Ok::<usize, GetError>(target)
                } else {
                    result matches Err(
                        GetError::NoSuchPartition {
                            partition,
                            plan_name: name,
                            partition_count: count,
                        },
                    ) && partition == target && name@ == plan_name@ && count == partition_count
                }
            }),
    {
        let partition: usize = self.target_partition as usize;
        if partition >= partition_count {
            return Err(
                GetError::NoSuchPartition {
                    partition,
                    plan_name: plan_name.to_owned(),
                    partition_count,
                },
            );
        }
        Ok(partition)
    }
}

/// How many partitions of a task have not been read yet, as far as requests tell: a partition that is
/// asked for again counts again.
#[derive(Debug, Clone, Copy, PartialEq, Eq, Structural)]
pub struct PartitionsRemaining {
    pub count: usize,
}

impl PartitionsRemaining {
    /// The partitions of a task of which none has been read.
    pub fn new(total_partitions: usize) -> (remaining: Self)
        ensures
            remaining.count == total_partitions,
    {
        PartitionsRemaining { count: total_partitions }
    }

    /// Takes note that a partition has been read, and tells whether it was the last one: the task is
    /// then forgotten. Below zero the count starts again at the largest number.
    pub fn finish_one(&mut self) -> (last: bool)
        ensures
            last == (old(self).count == 1),
            final(self).count == one_fewer(old(self).count),
    {
        let last = self.count == 1;
        self.count = self.count.wrapping_sub(1);
        last
    }
}

/// One fewer, or the largest number where there is none.
pub open spec fn one_fewer(count: usize) -> usize {
    if count == 0 {
        usize::MAX
    } else {
        (count - 1) as usize
    }
}

/// The count after `n` partitions have been read.
pub open spec fn count_after(total: usize, n: nat) -> usize
    decreases n,
{
    if n == 0 {
        total
    } else {
        one_fewer(count_after(total, (n - 1) as nat))
    }
}

/// A task is forgotten when the last of its partitions has been read, and not before: of `total`
/// reads only the last finds one partition remaining.
pub proof fn tasks_are_forgotten_after_the_last_partition(total: usize, n: nat)
    requires
        n < total,
    ensures
        count_after(total, n) == total - n,
        count_after(total, n) == 1 <==> n + 1 == total,
    decreases n,
{
    if n > 0 {
        tasks_are_forgotten_after_the_last_partition(total, (n - 1) as nat);
    }
}

/// What comes out of the stream of a partition.
#[derive(Debug, PartialEq, Eq)]
pub enum Polled<T, E> {
    Item(T),
    Error(E),
    End,
}

/// What is done when something comes out of the stream of a partition.
#[derive(Debug, PartialEq, Eq)]
pub enum Step<T, E> {
    /// Nothing is passed on yet; the stream is asked again.
    Wait,
    /// An item is passed on.
    Emit(T),
    /// The last item is passed on, after the partition was counted as read; the stream is asked again.
    EmitLast(T),
    Fail(E),
    Done,
}

/// Holds an item back until it is known whether another one follows, so that the last one can carry
/// the metrics of the task.
#[derive(Debug)]
pub struct TrailingStream<T> {
    pub held: Option<T>,
    pub closed: bool,
}

/// What is held back and what is done once something comes out of the stream of a partition.
pub open spec fn stepped<T, E>(held: Option<T>, polled: Polled<T, E>) -> (Option<T>, Step<T, E>) {
    match polled {
        Polled::Item(item) => (
            Some(item),
            match held {
                None => Step::Wait,
                Some(existing) => Step::Emit(existing),
            },
        ),
        Polled::Error(e) => (held, Step::Fail(e)),
        Polled::End => match held {
            Some(existing) => (None, Step::EmitLast(existing)),
            None => (None, Step::Done),
        },
    }
}

impl<T> TrailingStream<T> {
    pub fn new() -> (stream: Self)
        ensures
            stream.held is None,
            !stream.closed,
    {
        TrailingStream { held: None, closed: false }
    }

    /// Takes in what comes out of the stream of a partition. Once the last item was passed on, no
    /// other can be the last.
    pub fn step<E>(&mut self, polled: Polled<T, E>) -> (step: Step<T, E>)
        requires
            polled is End && old(self).held is Some ==> !old(self).closed,
        ensures
            (final(self).held, step) == stepped(old(self).held, polled),
            final(self).closed == (old(self).closed || step is EmitLast),
    {
        match polled {
            Polled::Item(item) => match self.held.take() {
                None => {
                    self.held = Some(item);
                    Step::Wait
                },
                Some(existing) => {
                    self.held = Some(item);
                    Step::Emit(existing)
                },
            },
            Polled::Error(e) => Step::Fail(e),
            Polled::End => match self.held.take() {
                Some(existing) => {
                    self.closed = true;
                    Step::EmitLast(existing)
                },
                None => Step::Done,
            },
        }
    }
}

/// What a step passes on: an item, and whether it is passed on as the last.
pub open spec fn emitted<T, E>(step: Step<T, E>) -> Seq<(T, bool)> {
    match step {
        Step::Emit(item) => seq![(item, false)],
        Step::EmitLast(item) => seq![(item, true)],
        _ => Seq::empty(),
    }
}

/// What is passed on of a stream that gives some items and ends, where `held` is held back before.
pub open spec fn passed_on<T>(held: Option<T>, items: Seq<T>) -> Seq<(T, bool)>
    decreases items.len(),
{
    if items.len() == 0 {
        emitted(stepped(held, Polled::<T, ()>::End).1)
    } else {
        let (next, step) = stepped(held, Polled::<T, ()>::Item(items[0]));
        emitted(step) + passed_on(next, items.drop_first())
    }
}

/// Every item of a stream is passed on, in order, and the last one and no other is passed on as the
/// last. A stream without items passes nothing on.
pub proof fn only_the_last_item_carries_the_metrics<T>(items: Seq<T>)
    ensures
        passed_on(None, items) == Seq::new(
            items.len(),
            |i: int| (items[i], i == items.len() - 1),
        ),
{
    if items.len() > 0 {
        lemma_passed_on(items[0], items.drop_first());
        assert(passed_on(None, items) =~= Seq::new(
            items.len(),
            |i: int| (items[i], i == items.len() - 1),
        ));
    } else {
        assert(passed_on(None, items) =~= Seq::new(
            items.len(),
            |i: int| (items[i], i == items.len() - 1),
        ));
    }
}

proof fn lemma_passed_on<T>(held: T, items: Seq<T>)
    ensures
        passed_on(Some(held), items) == Seq::new(
            items.len() + 1,
            |i: int| (if i == 0 { held } else { items[i - 1] }, i == items.len()),
        ),
    decreases items.len(),
{
    let expected = Seq::new(
        items.len() + 1,
        |i: int| (if i == 0 { held } else { items[i - 1] }, i == items.len()),
    );
    if items.len() > 0 {
        let rest = items.drop_first();
        lemma_passed_on(items[0], rest);
        assert(passed_on(Some(held), items) =~= expected);
    } else {
        assert(passed_on(Some(held), items) =~= expected);
    }
}

/// Why the metrics of a task cannot be sent.
#[derive(Debug)]
pub enum CollectError {
    Duplicate(DuplicateTaskMetrics),
    Proto(MetricsProtoError),
}

/// The metrics of the nodes of a task, on their way to the wire: the first that cannot be sent is the
/// error.
pub open spec fn sets_to_wire(sets: Seq<Seq<MetricView>>) -> Result<
    Seq<Seq<WireMetricView>>,
    MetricsProtoErrorView,
>
    decreases sets.len(),
{
    if sets.len() == 0 {
        Ok(Seq::empty())
    } else {
        match sets_to_wire(sets.drop_last()) {
            Err(e) => Err(e),
            Ok(before) => match set_to_wire(sets.last()) {
                Err(e) => Err(e),
                Ok(last) => Ok(before.push(last)),
            },
        }
    }
}

proof fn lemma_sets_prefix(sets: Seq<Seq<MetricView>>, n: int)
    requires
        0 <= n <= sets.len(),
        sets_to_wire(sets.take(n)) is Err,
    ensures
        sets_to_wire(sets) == sets_to_wire(sets.take(n)),
    decreases sets.len() - n,
{
    if n == sets.len() {
        assert(sets.take(n) =~= sets);
    } else {
        assert(sets.take(n + 1).drop_last() =~= sets.take(n));
        lemma_sets_prefix(sets, n + 1);
    }
}

/// The metrics that tasks have, as they are sent.
pub open spec fn task_entries(tasks: Seq<TaskMetrics>) -> Seq<
    (TaskKeyView, Seq<Seq<WireMetricView>>),
> {
    Seq::new(tasks.len(), |i: int| (tasks[i].task_key->0@, sets_view(tasks[i].metrics@)))
}

/// Whether `result` is what is sent when a task has run: its own metrics under its key and those that
/// it received from other tasks, in any order.
pub open spec fn is_collected(
    plan: ExecutedView,
    key: TaskKeyView,
    result: Result<Vec<TaskMetrics>, CollectError>,
) -> bool {
    match collect_plan(plan, nothing_collected()) {
        Err(duplicates) => result matches Err(CollectError::Duplicate(d)) && duplicates.contains(
            d.key@,
        ),
        Ok(collected) => match sets_to_wire(collected.task_metrics) {
            Err(e) => result matches Err(CollectError::Proto(p)) && p@ == e,
            Ok(own) => result matches Ok(tasks) && {
                &&& forall|i: int|
                    0 <= i < tasks@.len() ==> (#[trigger] tasks@[i]).task_key is Some
                &&& lists_map(
                    task_entries(tasks@),
                    collected.input_task_metrics.insert(key, own),
                )
            },
        },
    }
}

fn convert_sets(sets: &Vec<crate::metrics::metric::MetricsSet>) -> (result: Result<
    Vec<MetricsSet>,
    MetricsProtoError,
>)
    ensures
        match (result, sets_to_wire(df_sets_view(sets@))) {
            (Ok(r), Ok(expected)) => sets_view(r@) == expected,
            (Err(e), Err(expected)) => e@ == expected,
            _ => false,
        },
{
    let ghost views = df_sets_view(sets@);
    let mut result: Vec<MetricsSet> = Vec::new();
    proof {
        assert(views.take(0) =~= Seq::empty());
        assert(sets_view(result@) =~= Seq::empty());
    }
    for i in 0..sets.len()
        invariant
            views == df_sets_view(sets@),
            sets_to_wire(views.take(i as int)) == Ok::<_, MetricsProtoErrorView>(
                sets_view(result@),
            ),
    {
        proof {
            assert(views.take(i + 1).drop_last() =~= views.take(i as int));
            assert(views.take(i + 1).last() == sets@[i as int]@);
        }
        let ghost before = result@;
        match df_metrics_set_to_proto(&sets[i]) {
            Err(e) => {
                proof {
                    lemma_sets_prefix(views, i + 1);
                }
                return Err(e);
            },
            Ok(set) => {
                result.push(set);
                proof {
                    assert(sets_view(result@) =~= sets_view(before).push(set@));
                }
            },
        }
    }
    proof {
        assert(views.take(views.len() as int) =~= views);
    }
    Ok(result)
}

/// Gathers the metrics that are sent when a task has run.
pub fn collect_task_metrics(key: TaskKey, plan: &mut ExecutedPlan) -> (result: Result<
    Vec<TaskMetrics>,
    CollectError,
>)
    requires
        collections_wf(*old(plan)),
    ensures
        is_collected(old(plan)@, key@, result),
        collect_plan(old(plan)@, nothing_collected()) is Ok ==> final(plan)@ == drained(
            old(plan)@,
        ),
{
    let ghost key_view = key@;
    let collector = TaskMetricsCollector::new();
    let mut collected = match collector.collect(plan) {
        Err(duplicate) => {
            return Err(CollectError::Duplicate(duplicate));
        },
        Ok(collected) => collected,
    };
    let own = match convert_sets(&collected.task_metrics) {
        Err(e) => {
            return Err(CollectError::Proto(e));
        },
        Ok(own) => own,
    };
    collected.input_task_metrics.insert(key, own);
    let ghost map = collected.input_task_metrics@;
    let entries = collected.input_task_metrics.take();
    let ghost views = entry_views(entries@);
    let mut tasks: Vec<TaskMetrics> = Vec::new();
    for entry in it: entries
        invariant
            entry_views(it.seq()) == views,
            tasks@.len() == it.index(),
            forall|i: int|
                0 <= i < it.index() ==> (#[trigger] tasks@[i]).task_key is Some && (
                    tasks@[i].task_key->0@,
                    sets_view(tasks@[i].metrics@),
                ) == views[i],
    {
        proof {
            assert((entry.0@, sets_view(entry.1@)) == views[it.index() as int]);
        }
        tasks.push(TaskMetrics { task_key: Some(entry.0), metrics: entry.1 });
    }
    proof {
        assert(task_entries(tasks@) =~= views);
    }
    Ok(tasks)
}

/// A failure of the stream of a partition is passed on, and the item that is held back is not lost: it
/// comes out when the stream goes on or ends.
pub proof fn failures_lose_no_item<T, E>(held: Option<T>, error: E, items: Seq<T>)
    ensures
        stepped(held, Polled::<T, E>::Error(error)).1 == Step::<T, E>::Fail(error),
        passed_on(stepped(held, Polled::<T, E>::Error(error)).0, items) == passed_on(held, items),
{
}

/// The metrics of every node of a task are sent, in order, each set on its own.
pub proof fn all_sets_are_sent(sets: Seq<Seq<MetricView>>, i: int)
    requires
        0 <= i < sets.len(),
    ensures
        sets_to_wire(sets) matches Ok(sent) ==> sent.len() == sets.len() && set_to_wire(sets[i])
            == Ok::<Seq<WireMetricView>, MetricsProtoErrorView>(sent[i]),
    decreases sets.len(),
{
    let before = sets.drop_last();
    lemma_sent_len(before);
    if i < before.len() {
        all_sets_are_sent(before, i);
        assert(before[i] == sets[i]);
    }
}

proof fn lemma_sent_len(sets: Seq<Seq<MetricView>>)
    ensures
        sets_to_wire(sets) matches Ok(sent) ==> sent.len() == sets.len(),
    decreases sets.len(),
{
    if sets.len() > 0 {
        lemma_sent_len(sets.drop_last());
    }
}

} // verus!
