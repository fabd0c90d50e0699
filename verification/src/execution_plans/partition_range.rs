use crate::distributed_planner::plan::Partitioning;
use crate::metrics::collection::{sets_view, MetricsCollection};
use crate::protocol::grpc::worker::{MetricsSet, TaskKey, TaskKeyView, WireMetricView};
use vstd::prelude::*;

verus! {

/// The same way of spreading rows, over a number of partitions `factor` times as large.
pub open spec fn scaled(partitioning: Partitioning, factor: usize) -> Partitioning {
    let count = (partitioning.count() * factor) as usize;
    match partitioning {
        Partitioning::RoundRobinBatch(_) => Partitioning::RoundRobinBatch(count),
        Partitioning::Hash(_) => Partitioning::Hash(count),
        Partitioning::UnknownPartitioning(_) => Partitioning::UnknownPartitioning(count),
    }
}

/// Spreads rows in the same way, over a number of partitions `factor` times as large.
pub fn scale_partitioning(partitioning: Partitioning, factor: usize) -> (result: Partitioning)
    requires
        partitioning.count() * factor <= usize::MAX,
    ensures
        result == scaled(partitioning, factor),
        result.count() == partitioning.count() * factor,
{
    match partitioning {
        Partitioning::RoundRobinBatch(n) => Partitioning::RoundRobinBatch(n * factor),
        Partitioning::Hash(n) => Partitioning::Hash(n * factor),
        Partitioning::UnknownPartitioning(n) => Partitioning::UnknownPartitioning(n * factor),
    }
}

/// The partitions of the stage below that a task of the stage above reads, and the one among them
/// that is asked for.
#[derive(Debug, Clone, Copy, PartialEq, Eq, Structural)]
pub struct PartitionRequest {
    pub start: usize,
    pub end: usize,
    pub partition: usize,
}

/// What a task asks of each task of the stage below for one of its partitions, where every task
/// reads `count` partitions.
pub open spec fn request(count: usize, task_index: usize, partition: usize) -> PartitionRequest {
    PartitionRequest {
        start: (count * task_index) as usize,
        end: (count * task_index + count) as usize,
        partition: (count * task_index + partition) as usize,
    }
}

/// Works out what a task asks of each task of the stage below.
pub fn partition_request(count: usize, task_index: usize, partition: usize) -> (result:
    PartitionRequest)
    requires
        count * task_index + count <= usize::MAX,
        count * task_index + partition <= usize::MAX,
    ensures
        result == request(count, task_index, partition),
        result.start == count * task_index,
        result.end == count * task_index + count,
        result.partition == count * task_index + partition,
{
    let off: usize = count * task_index;
    PartitionRequest { start: off, end: off + count, partition: off + partition }
}

/// Every partition of the stage below is read by exactly one task of the stage above, as exactly one
/// of its partitions.
pub proof fn every_partition_is_requested_once(count: nat, tasks: nat, p: int) -> (reader: (int, int))
    requires
        0 <= p < count * tasks,
    ensures
        0 <= reader.0 < tasks,
        0 <= reader.1 < count,
        count * reader.0 + reader.1 == p,
        forall|task: int, partition: int|
            0 <= partition < count && #[trigger] (count * task + partition) == p ==> task
                == reader.0 && partition == reader.1,
{
    assert(count > 0) by (nonlinear_arith)
        requires
            0 <= p < count * tasks,
    ;
    let task = p / (count as int);
    let partition = p % (count as int);
    vstd::arithmetic::div_mod::lemma_fundamental_div_mod(p, count as int);
    assert(0 <= task < tasks) by (nonlinear_arith)
        requires
            0 <= p < count * tasks,
            count > 0,
            p == count * task + partition,
            0 <= partition < count,
    ;
    assert forall|t: int, q: int| 0 <= q < count && #[trigger] (count * t + q) == p implies t == task
        && q == partition by {
        assert(t == task) by (nonlinear_arith)
            requires
                count > 0,
                p == count * t + q,
                p == count * task + partition,
                0 <= q < count,
                0 <= partition < count,
        ;
    }
    (task, partition)
}

/// The metrics of a task, as they arrive with its data.
#[derive(Debug)]
pub struct TaskMetrics {
    pub task_key: Option<TaskKey>,
    pub metrics: Vec<MetricsSet>,
}

/// What is known of the metrics of tasks once some more have arrived. Those that do not say which
/// task they are of are dropped.
pub open spec fn recorded(
    known: Map<TaskKeyView, Seq<Seq<WireMetricView>>>,
    arrived: Seq<TaskMetrics>,
) -> Map<TaskKeyView, Seq<Seq<WireMetricView>>>
    decreases arrived.len(),
{
    if arrived.len() == 0 {
        known
    } else {
        let before = recorded(known, arrived.drop_last());
        match arrived.last().task_key {
            Some(key) => before.insert(key@, sets_view(arrived.last().metrics@)),
            None => before,
        }
    }
}

/// Keeps the metrics of tasks that arrived with their data.
pub fn record_task_metrics(collection: &mut MetricsCollection, arrived: Vec<TaskMetrics>)
    requires
        old(collection).wf(),
    ensures
        final(collection).wf(),
        final(collection)@ == recorded(old(collection)@, arrived@),
{
    let ghost known = collection@;
    let ghost all = arrived@;
    proof {
        assert(all.take(0) =~= Seq::empty());
    }
    for task_metrics in it: arrived
        invariant
            it.seq() == all,
            collection.wf(),
            collection@ == recorded(known, all.take(it.index() as int)),
    {
        proof {
            let k = it.index() as int;
            assert(all.take(k + 1).drop_last() =~= all.take(k));
            assert(all.take(k + 1).last() == task_metrics);
        }
        match task_metrics.task_key {
            Some(key) => {
                collection.insert(key, task_metrics.metrics);
            },
            None => {},
        }
    }
    proof {
        assert(all.take(all.len() as int) =~= all);
    }
}

/// What is recorded of a task is what arrived last of it. What arrives without telling its task, or of
/// other tasks, changes nothing.
pub proof fn the_last_metrics_of_a_task_are_recorded(
    known: Map<TaskKeyView, Seq<Seq<WireMetricView>>>,
    arrived: Seq<TaskMetrics>,
    key: TaskKeyView,
    i: int,
)
    requires
        -1 <= i < arrived.len(),
        i >= 0 ==> (arrived[i].task_key matches Some(k) && k@ == key),
        forall|j: int|
            i < j < arrived.len() ==> !((#[trigger] arrived[j]).task_key matches Some(k) && k@
                == key),
    ensures
        i >= 0 ==> recorded(known, arrived).contains_pair(key, sets_view(arrived[i].metrics@)),
        i == -1 ==> recorded(known, arrived).contains_key(key) == known.contains_key(key) && (
        known.contains_key(key) ==> recorded(known, arrived)[key] == known[key]),
    decreases arrived.len(),
{
    if arrived.len() > 0 && i < arrived.len() - 1 {
        let before = arrived.drop_last();
        assert forall|j: int| i < j < before.len() implies !((#[trigger] before[j]).task_key matches Some(
            k,
        ) && k@ == key) by {
            assert(before[j] == arrived[j]);
        }
        assert(arrived[arrived.len() - 1] == arrived.last());
        the_last_metrics_of_a_task_are_recorded(known, before, key, i);
    }
}

/// The requests of the tasks share out the partitions of the stage below: each request is for one of the
/// partitions that its task reads, the tasks read as many partitions each, one task goes on where the
/// task before it stops, and different requests are for different partitions.
pub proof fn requests_share_out_the_partitions(
    count: usize,
    task: usize,
    partition: usize,
    other_task: usize,
    other_partition: usize,
)
    requires
        partition < count,
        other_partition < count,
        count * task + count <= usize::MAX,
        count * other_task + count <= usize::MAX,
    ensures
        request(count, task, partition).start <= request(count, task, partition).partition,
        request(count, task, partition).partition < request(count, task, partition).end,
        request(count, task, partition).end - request(count, task, partition).start == count,
        task == 0 ==> request(count, task, partition).start == 0,
        other_task == task + 1 ==> request(count, other_task, other_partition).start == request(
            count,
            task,
            partition,
        ).end,
        partition > 0 ==> request(count, task, partition).partition == request(
            count,
            task,
            (partition - 1) as usize,
        ).partition + 1,
        partition == 0 ==> request(count, task, partition).partition == request(
            count,
            task,
            partition,
        ).start,
        request(count, task, partition).partition == request(
            count,
            other_task,
            other_partition,
        ).partition ==> task == other_task && partition == other_partition,
{
    let (c, t, p, u, q) = (
        count as int,
        task as int,
        partition as int,
        other_task as int,
        other_partition as int,
    );
    assert(0 <= c * t && 0 <= c * u && c * (t + 1) == c * t + c) by (nonlinear_arith)
        requires
            0 <= c,
            0 <= t,
            0 <= u,
    ;
    if c * t + p == c * u + q {
        assert(t == u) by (nonlinear_arith)
            requires
                c * t + p == c * u + q,
                0 <= p < c,
                0 <= q < c,
        ;
    }
    if t == 0 {
        assert(c * t == 0);
    }
}

} // verus!
