use crate::metrics::collection::{entry_views, lists_map, sets_view, MetricsCollection};
use crate::metrics::executed_plan::{
    all_nodes_to_boundaries, collections_wf, executed_views, lemma_executed_children,
    nodes_to_boundaries, BoundaryView, ExecutedPlan, ExecutedView,
};
use crate::metrics::metric::{MetricView, MetricsSet};
use crate::protocol::grpc::worker as pb;
use crate::protocol::grpc::worker::{TaskKey, TaskKeyView, WireMetricView};
use vstd::prelude::*;

verus! {

/// Two network boundaries hold metrics for the same task.
#[derive(Debug)]
pub struct DuplicateTaskMetrics {
    pub key: TaskKey,
}

/// The text for a [DuplicateTaskMetrics] whose key is shown as `shown`.
pub open spec fn duplicate_text(shown: Seq<char>) -> Seq<char> {
    "duplicate task metrics for key "@ + shown + " during metrics collection"@
}

/// Adds the text for a key that is met twice.
pub fn push_duplicate(out: &mut String, shown: &str)
    ensures
        final(out)@ == old(out)@ + duplicate_text(shown@),
{
    out.push_str("duplicate task metrics for key ");
    out.push_str(shown);
    out.push_str(" during metrics collection");
    proof {
        assert(out@ =~= old(out)@ + duplicate_text(shown@));
    }
}

impl DuplicateTaskMetrics {
    /// The text of the error, where `shown` is the text for the key.
    pub fn message(&self, shown: &str) -> (text: String)
        ensures
            text@ == duplicate_text(shown@),
    {
        let mut text = String::new();
        push_duplicate(&mut text, shown);
        proof {
            assert(text@ =~= duplicate_text(shown@));
        }
        text
    }
}

/// The metrics of the nodes of a task, in the order in which its plan is walked from the top, and
/// the metrics of other tasks that its network boundaries received.
#[verifier::ext_equal]
pub struct CollectedView {
    pub task_metrics: Seq<Seq<MetricView>>,
    pub input_task_metrics: Map<TaskKeyView, Seq<Seq<WireMetricView>>>,
}

/// The keys that two maps share.
pub open spec fn shared_keys(
    a: Map<TaskKeyView, Seq<Seq<WireMetricView>>>,
    b: Map<TaskKeyView, Seq<Seq<WireMetricView>>>,
) -> Set<TaskKeyView> {
    a.dom().intersect(b.dom())
}

/// Adds the metrics of a plan to what was collected so far. Fails with the keys of the tasks that
/// a network boundary has metrics for although there are some already.
pub open spec fn collect_plan(plan: ExecutedView, so_far: CollectedView) -> Result<
    CollectedView,
    Set<TaskKeyView>,
>
    decreases plan,
{
    let task_metrics = so_far.task_metrics.push(
        match plan.metrics {
            Some(metrics) => metrics,
            None => Seq::empty(),
        },
    );
    match plan.boundary {
        Some(boundary) => {
            let received = boundary.metrics_collection;
            let duplicates = shared_keys(received, so_far.input_task_metrics);
            if duplicates == Set::<TaskKeyView>::empty() {
                Ok(
                    CollectedView {
                        task_metrics,
                        input_task_metrics: so_far.input_task_metrics.union_prefer_right(received),
                    },
                )
            } else {
                Err(duplicates)
            }
        },
        None => collect_plans(plan.children, CollectedView { task_metrics, ..so_far }),
    }
}

pub open spec fn collect_plans(plans: Seq<ExecutedView>, so_far: CollectedView) -> Result<
    CollectedView,
    Set<TaskKeyView>,
>
    decreases plans,
{
    if plans.len() == 0 {
        Ok(so_far)
    } else {
        match collect_plans(plans.drop_last(), so_far) {
            Err(keys) => Err(keys),
            Ok(so_far) => collect_plan(plans.last(), so_far),
        }
    }
}

/// A plan after its metrics were collected: its network boundaries know the same tasks, but have no
/// metrics for them any more. Boundaries below others are not reached.
pub open spec fn drained(plan: ExecutedView) -> ExecutedView
    decreases plan,
{
    match plan.boundary {
        Some(boundary) => ExecutedView {
            boundary: Some(
                BoundaryView {
                    metrics_collection: boundary.metrics_collection.map_values(
                        |metrics: Seq<Seq<WireMetricView>>| Seq::<Seq<WireMetricView>>::empty(),
                    ),
                    ..boundary
                },
            ),
            ..plan
        },
        None => ExecutedView { children: all_drained(plan.children), ..plan },
    }
}

pub open spec fn all_drained(plans: Seq<ExecutedView>) -> Seq<ExecutedView>
    decreases plans,
{
    if plans.len() == 0 {
        Seq::empty()
    } else {
        all_drained(plans.drop_last()).push(drained(plans.last()))
    }
}

/// What was collected from a task.
pub struct MetricsCollectorResult {
    /// The metrics of the nodes of the task, in the order in which its plan is walked from the top.
    pub task_metrics: Vec<MetricsSet>,
    /// The metrics of other tasks that were received.
    pub input_task_metrics: MetricsCollection,
}

pub open spec fn df_sets_view(sets: Seq<MetricsSet>) -> Seq<Seq<MetricView>> {
    Seq::new(sets.len(), |i: int| sets[i]@)
}

impl View for MetricsCollectorResult {
    type V = CollectedView;

    open spec fn view(&self) -> CollectedView {
        CollectedView {
            task_metrics: df_sets_view(self.task_metrics@),
            input_task_metrics: self.input_task_metrics@,
        }
    }
}

/// Collects the metrics of a task.
pub struct TaskMetricsCollector {
    task_metrics: Vec<MetricsSet>,
    input_task_metrics: MetricsCollection,
}

impl View for TaskMetricsCollector {
    type V = CollectedView;

    closed spec fn view(&self) -> CollectedView {
        CollectedView {
            task_metrics: df_sets_view(self.task_metrics@),
            input_task_metrics: self.input_task_metrics@,
        }
    }
}

/// Nothing collected yet.
pub open spec fn nothing_collected() -> CollectedView {
    CollectedView { task_metrics: Seq::empty(), input_task_metrics: Map::empty() }
}

impl TaskMetricsCollector {
    pub closed spec fn wf(&self) -> bool {
        self.input_task_metrics.wf()
    }

    /// A collector that has collected nothing.
    pub fn new() -> (collector: Self)
        ensures
            collector.wf(),
            collector@ == nothing_collected(),
    {
        let collector = TaskMetricsCollector {
            task_metrics: Vec::new(),
            input_task_metrics: MetricsCollection::new(),
        };
        proof {
            assert(df_sets_view(collector.task_metrics@) =~= Seq::empty());
        }
        collector
    }

    /// Adds what a network boundary received. The entries come in any order.
    fn add_received(
        &mut self,
        entries: Vec<(TaskKey, Vec<pb::MetricsSet>)>,
        Ghost(received): Ghost<Map<TaskKeyView, Seq<Seq<WireMetricView>>>>,
    ) -> (result: Result<(), DuplicateTaskMetrics>)
        requires
            old(self).wf(),
            lists_map(entry_views(entries@), received),
        ensures
            final(self).wf(),
            final(self)@.task_metrics == old(self)@.task_metrics,
            match result {
                Ok(()) => shared_keys(received, old(self)@.input_task_metrics) == Set::<
                    TaskKeyView,
                >::empty() && final(self)@.input_task_metrics
                    == old(self)@.input_task_metrics.union_prefer_right(received),
                Err(e) => shared_keys(received, old(self)@.input_task_metrics).contains(e.key@),
            },
    {
        let ghost before = self@.input_task_metrics;
        let ghost all = entries@;
        let ghost views = entry_views(all);
        for entry in it: entries
            invariant
                it.seq() == all,
                views == entry_views(all),
                lists_map(views, received),
                before == old(self)@.input_task_metrics,
                self.wf(),
                self.task_metrics == old(self).task_metrics,
                forall|i: int|
                    0 <= i < it.index() ==> !before.contains_key((#[trigger] views[i]).0),
                forall|i: int|
                    0 <= i < it.index() ==> self@.input_task_metrics.contains_pair(
                        (#[trigger] views[i]).0,
                        views[i].1,
                    ),
                forall|key: TaskKeyView| #[trigger]
                    before.contains_key(key) ==> self@.input_task_metrics.contains_pair(
                        key,
                        before[key],
                    ),
                forall|key: TaskKeyView| #[trigger]
                    self@.input_task_metrics.contains_key(key) ==> before.contains_key(key) || exists|
                        i: int,
                    |
                        0 <= i < it.index() && (#[trigger] views[i]).0 == key,
        {
            let ghost n = it.index() as int;
            let (key, metrics) = entry;
            proof {
                assert(views[n] == (key@, sets_view(metrics@)));
            }
            let found = self.input_task_metrics.get(&key);
            if found.is_some() {
                proof {
                    assert(self@.input_task_metrics.contains_key(key@));
                    if !before.contains_key(key@) {
                        let i = choose|i: int| 0 <= i < n && (#[trigger] views[i]).0 == key@;
                        assert(views[i].0 != views[n].0);
                    }
                    assert(received.contains_pair(views[n].0, views[n].1));
                }
                return Err(DuplicateTaskMetrics { key });
            }
            let ghost mid = self@.input_task_metrics;
            let ghost key_view = key@;
            self.input_task_metrics.insert(key, metrics);
            proof {
                assert(self@.input_task_metrics == mid.insert(key_view, views[n].1));
                assert forall|i: int|
                    0 <= i < n + 1 implies self@.input_task_metrics.contains_pair(
                    (#[trigger] views[i]).0,
                    views[i].1,
                ) by {
                    if i < n {
                        assert(views[i].0 != views[n].0);
                    }
                }
                assert forall|k: TaskKeyView| #[trigger]
                    self@.input_task_metrics.contains_key(k) implies before.contains_key(k)
                    || exists|i: int| 0 <= i < n + 1 && (#[trigger] views[i]).0 == k by {
                    if k == key_view {
                        assert(views[n].0 == k);
                    } else {
                        assert(mid.contains_key(k));
                        if !before.contains_key(k) {
                            let i = choose|i: int| 0 <= i < n && (#[trigger] views[i]).0 == k;
                            assert(views[i].0 == k);
                        }
                    }
                }
            }
        }
        proof {
            let after = self@.input_task_metrics;
            assert forall|key: TaskKeyView| #[trigger] received.contains_key(
                key,
            ) implies !before.contains_key(key) && after.contains_pair(key, received[key]) by {
                let i = choose|i: int| 0 <= i < views.len() && (#[trigger] views[i]).0 == key;
                assert(received.contains_pair(views[i].0, views[i].1));
                assert(!before.contains_key(views[i].0));
            }
            assert(shared_keys(received, before) =~= Set::empty());
            assert forall|key: TaskKeyView| #[trigger] after.contains_key(
                key,
            ) implies before.union_prefer_right(received).contains_key(key) by {
                if !before.contains_key(key) {
                    let i = choose|i: int| 0 <= i < views.len() && (#[trigger] views[i]).0 == key;
                    assert(received.contains_pair(views[i].0, views[i].1));
                }
            }
            assert(after =~= before.union_prefer_right(received));
        }
        Ok(())
    }

    /// Walks a plan from the top and collects its metrics.
    fn walk(&mut self, plan: &mut ExecutedPlan) -> (result: Result<(), DuplicateTaskMetrics>)
        requires
            old(self).wf(),
            collections_wf(*old(plan)),
        ensures
            final(self).wf(),
            match (result, collect_plan(old(plan)@, old(self)@)) {
                (Ok(()), Ok(collected)) => final(self)@ == collected && final(plan)@ == drained(
                    old(plan)@,
                ) && collections_wf(*final(plan)),
                (Err(e), Err(duplicates)) => duplicates.contains(e.key@),
                _ => false,
            },
        decreases *old(plan),
    {
        let ghost plan_view = plan@;
        let ghost start = self@;
        let metrics = match &plan.metrics {
            Some(metrics) => metrics.clone(),
            None => MetricsSet::new(),
        };
        let ghost before_push = self.task_metrics@;
        self.task_metrics.push(metrics);
        proof {
            lemma_executed_children(*old(plan));
            lemma_executed_children(*plan);
            assert(plan@.metrics == plan_view.metrics);
            assert(df_sets_view(self.task_metrics@) =~= df_sets_view(before_push).push(metrics@));
        }
        let ghost pushed = self@;
        if let Some(boundary) = &mut plan.boundary {
            let ghost received = boundary.metrics_collection@;
            let entries = boundary.metrics_collection.take();
            let result = self.add_received(entries, Ghost(received));
            proof {
                assert(plan_view.boundary == Some(
                    BoundaryView {
                        metrics_collection: received,
                        ..plan_view.boundary->0
                    },
                ));
                if result is Err {
                    let duplicates = shared_keys(received, start.input_task_metrics);
                    assert(duplicates.contains(result->Err_0.key@));
                    assert(duplicates != Set::<TaskKeyView>::empty());
                }
                lemma_executed_children(*plan);
            }
            return result;
        }
        let count: usize = plan.children.len();
        let ghost inputs = plan_view.children;
        proof {
            assert(inputs.take(0) =~= Seq::empty());
            assert(executed_views(plan.children@).take(0) =~= all_drained(inputs.take(0)));
        }
        for i in 0..count
            invariant
                count == inputs.len(),
                count == plan.children@.len(),
                inputs == executed_views(old(plan).children@),
                old(plan).children@.len() == count,
                collections_wf(*old(plan)),
                collect_plan(old(plan)@, old(self)@) == collect_plans(inputs, pushed),
                self.wf(),
                plan.id == plan_view.id,
                plan.boundary is None,
                plan@.metrics == plan_view.metrics,
                collect_plans(inputs.take(i as int), pushed) == Ok::<
                    CollectedView,
                    Set<TaskKeyView>,
                >(self@),
                executed_views(plan.children@).take(i as int) =~= all_drained(
                    inputs.take(i as int),
                ),
                forall|j: int|
                    0 <= j < i ==> collections_wf(#[trigger] plan.children@[j]),
                forall|j: int|
                    i <= j < count ==> #[trigger] plan.children@[j] == old(plan).children@[j],
        {
            let ghost mid = plan.children@;
            proof {
                assert(inputs.take(i + 1).drop_last() =~= inputs.take(i as int));
                assert(plan.children@[i as int] == old(plan).children@[i as int]);
                assert(inputs[i as int] == old(plan).children@[i as int]@);
                assert(collections_wf(old(plan).children@[i as int]));
            }
            let result = self.walk(&mut plan.children[i]);
            if let Err(e) = result {
                proof {
                    lemma_collect_prefix(inputs, pushed, i + 1);
                }
                return Err(e);
            }
            proof {
                assert forall|j: int| 0 <= j < count && j != i implies (
                #[trigger] plan.children@[j]) == mid[j] by {}
                assert(executed_views(plan.children@).take(i + 1) =~= executed_views(mid).take(
                    i as int,
                ).push(plan.children@[i as int]@));
            }
        }
        proof {
            assert(inputs.take(count as int) =~= inputs);
            assert(executed_views(plan.children@).take(count as int) =~= executed_views(
                plan.children@,
            ));
            lemma_executed_children(*plan);
        }
        Ok(())
    }

    /// Collects the metrics of a plan and those that its network boundaries received.
    pub fn collect(self, plan: &mut ExecutedPlan) -> (result: Result<
        MetricsCollectorResult,
        DuplicateTaskMetrics,
    >)
        requires
            self.wf(),
            collections_wf(*old(plan)),
        ensures
            match (result, collect_plan(old(plan)@, self@)) {
                (Ok(collected), Ok(expected)) => collected@ == expected
                    && collected.input_task_metrics.wf() && final(plan)@ == drained(old(plan)@),
                (Err(e), Err(duplicates)) => duplicates.contains(e.key@),
                _ => false,
            },
    {
        let mut collector = self;
        match collector.walk(plan) {
            Ok(()) => Ok(
                MetricsCollectorResult {
                    task_metrics: collector.task_metrics,
                    input_task_metrics: collector.input_task_metrics,
                },
            ),
            Err(e) => Err(e),
        }
    }
}

proof fn lemma_collect_prefix(plans: Seq<ExecutedView>, so_far: CollectedView, i: int)
    requires
        0 <= i <= plans.len(),
        collect_plans(plans.take(i), so_far) is Err,
    ensures
        collect_plans(plans, so_far) == collect_plans(plans.take(i), so_far),
    decreases plans.len() - i,
{
    if i == plans.len() {
        assert(plans.take(i) =~= plans);
    } else {
        assert(plans.take(i + 1).drop_last() =~= plans.take(i));
        lemma_collect_prefix(plans, so_far, i + 1);
    }
}

/// There is one set of metrics for each node down to the network boundaries, whether or not the
/// node has metrics.
pub proof fn every_node_is_collected(plan: ExecutedView, so_far: CollectedView)
    ensures
        collect_plan(plan, so_far) matches Ok(collected) ==> collected.task_metrics.len()
            == so_far.task_metrics.len() + nodes_to_boundaries(plan),
    decreases plan,
{
    if plan.boundary is None {
        let task_metrics = so_far.task_metrics.push(
            match plan.metrics {
                Some(metrics) => metrics,
                None => Seq::empty(),
            },
        );
        lemma_every_node_is_collected(
            plan.children,
            CollectedView { task_metrics, ..so_far },
        );
    }
}

proof fn lemma_every_node_is_collected(plans: Seq<ExecutedView>, so_far: CollectedView)
    ensures
        collect_plans(plans, so_far) matches Ok(collected) ==> collected.task_metrics.len()
            == so_far.task_metrics.len() + all_nodes_to_boundaries(plans),
    decreases plans,
{
    if plans.len() > 0 {
        lemma_every_node_is_collected(plans.drop_last(), so_far);
        if let Ok(front) = collect_plans(plans.drop_last(), so_far) {
            every_node_is_collected(plans.last(), front);
        }
    }
}

} // verus!
