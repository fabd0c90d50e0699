use crate::metrics::executed_plan::{
    all_nodes_to_boundaries, nodes_to_boundaries, ExecutedView, InputStageView,
};
use crate::metrics::metric::{LabelView, MetricView};
use crate::metrics::task_metrics_collector::{
    collect_plan, collect_plans, shared_keys, CollectedView,
};
use crate::metrics::task_metrics_rewriter::{
    node_metrics, own_metrics, rewrite_all_in_stage, rewrite_ctx, rewrite_set, rewrite_stage,
    stage_task_key, walk_all_metrics, walk_metrics, DistributedMetricsFormat, RewriteErrorView,
};
use crate::protocol::grpc::metrics_proto::set_from_wire;
use crate::protocol::grpc::worker::{TaskKeyView, WireMetricView};
use crate::text::decimal;
use vstd::prelude::*;

verus! {

/// Whether a metric is shown as another one that was measured in the given task: with the same
/// measurement and partition, and with one more label that tells the task where tasks are shown apart.
pub open spec fn shows_metric(
    format: DistributedMetricsFormat,
    task: nat,
    measured: MetricView,
    shown: MetricView,
) -> bool {
    match format {
        DistributedMetricsFormat::Aggregated => shown == measured,
        DistributedMetricsFormat::PerTask => {
            &&& shown.value == measured.value
            &&& shown.partition == measured.partition
            &&& shown.labels == measured.labels.push(
                LabelView { name: "distributed_datafusion_task_id"@, value: decimal(task) },
            )
        },
    }
}

/// The metrics of a task keep their number, their order and what they measured, and where tasks are shown
/// apart each of them tells the task.
pub proof fn metrics_tell_their_task(
    format: DistributedMetricsFormat,
    task: u64,
    metrics: Seq<MetricView>,
    i: int,
)
    requires
        0 <= i < metrics.len(),
    ensures
        rewrite_set(rewrite_ctx(format, task), metrics).len() == metrics.len(),
        shows_metric(
            format,
            task as nat,
            metrics[i],
            rewrite_set(rewrite_ctx(format, task), metrics)[i],
        ),
{
}

/// The key under which the metrics of a task of a stage are kept.
pub open spec fn key_of_task(stage: InputStageView, task: nat) -> TaskKeyView {
    TaskKeyView { query_id: stage.query_id, stage_id: stage.num as u64, task_number: task as u64 }
}

/// A node of a stage shows all the metrics that each of its tasks measured for it, and there is room for
/// no others: they stand one task after the other.
pub proof fn nodes_show_the_metrics_of_all_tasks(
    stage: InputStageView,
    collection: Map<TaskKeyView, Seq<Seq<WireMetricView>>>,
    format: DistributedMetricsFormat,
    index: nat,
    tasks: nat,
    t: nat,
    j: int,
) -> (place: int)
    requires
        tasks <= u64::MAX,
        node_metrics(stage, collection, format, index, tasks) is Ok,
        t < tasks,
        0 <= j,
        set_from_wire(collection[key_of_task(stage, t)][index as int]) matches Ok(set) ==> j
            < set.len(),
    ensures
        collection.contains_key(key_of_task(stage, t)),
        index < collection[key_of_task(stage, t)].len(),
        set_from_wire(collection[key_of_task(stage, t)][index as int]) matches Ok(set) && {
            let shown = node_metrics(stage, collection, format, index, tasks)->Ok_0;
            let before = node_metrics(stage, collection, format, index, t)->Ok_0;
            &&& node_metrics(stage, collection, format, index, t) is Ok
            &&& place == before.len() + j
            &&& place < shown.len()
            &&& shows_metric(format, t, set[j], shown[place])
            &&& t == 0 ==> before.len() == 0
            &&& t + 1 == tasks ==> shown.len() == before.len() + set.len()
        },
    decreases tasks,
{
    let last = (tasks - 1) as nat;
    let key = stage_task_key(stage, last);
    let set = set_from_wire(collection[key][index as int])->Ok_0;
    let before = node_metrics(stage, collection, format, index, last)->Ok_0;
    if t == last {
        metrics_tell_their_task(format, last as u64, set, j);
        before.len() + j
    } else {
        nodes_show_the_metrics_of_all_tasks(stage, collection, format, index, last, t, j)
    }
}

/// Whether one plan is another with other metrics.
pub open spec fn same_nodes(before: ExecutedView, after: ExecutedView) -> bool
    decreases before,
{
    &&& after.id == before.id
    &&& after.boundary == before.boundary
    &&& after.children.len() == before.children.len()
    &&& before.boundary is Some ==> after.children == before.children
    &&& before.boundary is None ==> forall|i: int|
        0 <= i < before.children.len() ==> same_nodes(#[trigger] before.children[i], after.children[i])
}

/// The nodes of a stage stay as they are and get metrics, in the order in which the plan is walked from
/// the top: the `k`-th node shows what all the tasks measured for their `k`-th node.
pub proof fn stages_show_the_metrics_of_their_nodes(
    stage: InputStageView,
    plan: ExecutedView,
    collection: Map<TaskKeyView, Seq<Seq<WireMetricView>>>,
    format: DistributedMetricsFormat,
    index: nat,
)
    ensures
        rewrite_stage(stage, plan, collection, format, index) matches Ok((shown, after)) ==> {
            &&& same_nodes(plan, shown)
            &&& walk_metrics(shown).len() == nodes_to_boundaries(plan)
            &&& after == index + nodes_to_boundaries(plan)
            &&& forall|k: int|
                0 <= k < nodes_to_boundaries(plan) ==> node_metrics(
                    stage,
                    collection,
                    format,
                    (index + k) as nat,
                    stage.task_count as nat,
                ) == Ok::<Seq<MetricView>, RewriteErrorView>(#[trigger] walk_metrics(shown)[k])
        },
    decreases plan,
{
    lemma_all_show_metrics(stage, plan.children, collection, format, index + 1);
    if let Ok((shown, after)) = rewrite_stage(stage, plan, collection, format, index) {
        if plan.boundary is None {
            let below = walk_all_metrics(shown.children);
            assert forall|k: int| 0 <= k < nodes_to_boundaries(plan) implies node_metrics(
                stage,
                collection,
                format,
                (index + k) as nat,
                stage.task_count as nat,
            ) == Ok::<Seq<MetricView>, RewriteErrorView>(#[trigger] walk_metrics(shown)[k]) by {
                if k > 0 {
                    assert(walk_metrics(shown)[k] == below[k - 1]);
                    assert(((index + 1) + (k - 1)) as nat == (index + k) as nat);
                }
            }
        }
    }
}

proof fn lemma_all_show_metrics(
    stage: InputStageView,
    plans: Seq<ExecutedView>,
    collection: Map<TaskKeyView, Seq<Seq<WireMetricView>>>,
    format: DistributedMetricsFormat,
    index: nat,
)
    ensures
        rewrite_all_in_stage(stage, plans, collection, format, index) matches Ok((shown, after))
            ==> {
            &&& shown.len() == plans.len()
            &&& forall|i: int| 0 <= i < plans.len() ==> same_nodes(#[trigger] plans[i], shown[i])
            &&& walk_all_metrics(shown).len() == all_nodes_to_boundaries(plans)
            &&& after == index + all_nodes_to_boundaries(plans)
            &&& forall|k: int|
                0 <= k < all_nodes_to_boundaries(plans) ==> node_metrics(
                    stage,
                    collection,
                    format,
                    (index + k) as nat,
                    stage.task_count as nat,
                ) == Ok::<Seq<MetricView>, RewriteErrorView>(#[trigger] walk_all_metrics(shown)[k])
        },
    decreases plans,
{
    if plans.len() > 0 {
        let front = plans.drop_last();
        lemma_all_show_metrics(stage, front, collection, format, index);
        if let Ok((before, mid)) = rewrite_all_in_stage(stage, front, collection, format, index) {
            stages_show_the_metrics_of_their_nodes(stage, plans.last(), collection, format, mid);
            if let Ok((shown, after)) = rewrite_all_in_stage(
                stage,
                plans,
                collection,
                format,
                index,
            ) {
                let n = all_nodes_to_boundaries(front);
                assert(shown.drop_last() =~= before);
                assert forall|i: int| 0 <= i < plans.len() implies same_nodes(
                    #[trigger] plans[i],
                    shown[i],
                ) by {
                    if i < front.len() {
                        assert(front[i] == plans[i]);
                        assert(before[i] == shown[i]);
                    }
                }
                assert forall|k: int| 0 <= k < all_nodes_to_boundaries(plans) implies node_metrics(
                    stage,
                    collection,
                    format,
                    (index + k) as nat,
                    stage.task_count as nat,
                ) == Ok::<Seq<MetricView>, RewriteErrorView>(#[trigger] walk_all_metrics(shown)[k]) by {
                    if k < n {
                        assert(walk_all_metrics(shown)[k] == walk_all_metrics(before)[k]);
                    } else {
                        assert(walk_all_metrics(shown)[k] == walk_metrics(shown.last())[k - n]);
                        assert((mid + (k - n)) as nat == (index + k) as nat);
                    }
                }
            }
        }
    }
}

/// Whether a network boundary of a plan, with no other one above it, has received the given metrics of a
/// task.
pub open spec fn receives(
    plan: ExecutedView,
    key: TaskKeyView,
    metrics: Seq<Seq<WireMetricView>>,
) -> bool
    decreases plan,
{
    match plan.boundary {
        Some(boundary) => boundary.metrics_collection.contains_key(key)
            && boundary.metrics_collection[key] == metrics,
        None => exists|i: int|
            0 <= i < plan.children.len() && receives(#[trigger] plan.children[i], key, metrics),
    }
}

/// Whether the given metrics of a task are among those that were collected.
pub open spec fn has_collected(
    collected: CollectedView,
    key: TaskKeyView,
    metrics: Seq<Seq<WireMetricView>>,
) -> bool {
    collected.input_task_metrics.contains_key(key) && collected.input_task_metrics[key] == metrics
}

/// What is collected of other tasks is exactly what the network boundaries of the plan received of them,
/// besides what was there before: nothing is lost, changed or made up.
pub proof fn received_metrics_are_collected(
    plan: ExecutedView,
    so_far: CollectedView,
    key: TaskKeyView,
    metrics: Seq<Seq<WireMetricView>>,
)
    ensures
        collect_plan(plan, so_far) matches Ok(collected) ==> (has_collected(
            collected,
            key,
            metrics,
        ) <==> has_collected(so_far, key, metrics) || receives(plan, key, metrics)),
    decreases plan,
{
    match plan.boundary {
        Some(boundary) => {
            let received = boundary.metrics_collection;
            if let Ok(collected) = collect_plan(plan, so_far) {
                if received.contains_key(key) && so_far.input_task_metrics.contains_key(key) {
                    assert(shared_keys(received, so_far.input_task_metrics).contains(key));
                }
            }
        },
        None => {
            let task_metrics = so_far.task_metrics.push(own_metrics(plan));
            lemma_all_received(
                plan.children,
                CollectedView { task_metrics, ..so_far },
                key,
                metrics,
            );
        },
    }
}

proof fn lemma_all_received(
    plans: Seq<ExecutedView>,
    so_far: CollectedView,
    key: TaskKeyView,
    metrics: Seq<Seq<WireMetricView>>,
)
    ensures
        collect_plans(plans, so_far) matches Ok(collected) ==> (has_collected(
            collected,
            key,
            metrics,
        ) <==> has_collected(so_far, key, metrics) || exists|i: int|
            0 <= i < plans.len() && receives(#[trigger] plans[i], key, metrics)),
    decreases plans,
{
    if plans.len() > 0 {
        let front = plans.drop_last();
        lemma_all_received(front, so_far, key, metrics);
        if let Ok(before) = collect_plans(front, so_far) {
            received_metrics_are_collected(plans.last(), before, key, metrics);
            assert(plans.last() == plans[plans.len() - 1]);
            if exists|i: int| 0 <= i < front.len() && receives(#[trigger] front[i], key, metrics) {
                let i = choose|i: int|
                    0 <= i < front.len() && receives(#[trigger] front[i], key, metrics);
                assert(receives(plans[i], key, metrics));
            }
            if exists|i: int| 0 <= i < plans.len() && receives(#[trigger] plans[i], key, metrics) {
                let i = choose|i: int|
                    0 <= i < plans.len() && receives(#[trigger] plans[i], key, metrics);
                if i < front.len() {
                    assert(receives(front[i], key, metrics));
                }
            }
        }
    }
}

} // verus!
