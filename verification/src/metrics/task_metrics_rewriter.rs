use crate::metrics::collection::MetricsCollection;
use crate::metrics::executed_plan::{
    collections_wf, executed_views, lemma_executed_children, ExecutedPlan, ExecutedView,
    InputStage, InputStageView,
};
use crate::metrics::metric::{
    label_views, metric_views, Label, LabelView, Metric, MetricView, MetricsSet,
};
use crate::metrics::task_metrics_collector::{
    collect_plan, collect_plans, df_sets_view, drained, duplicate_text, nothing_collected, push_duplicate,
    CollectedView, TaskMetricsCollector,
};
use crate::protocol::grpc::metrics_proto::{
    metrics_error_text, metrics_set_proto_to_df, set_from_wire, MetricsProtoError,
    MetricsProtoErrorView,
};
use crate::protocol::grpc::worker::{clone_bytes, TaskKey, TaskKeyView, WireMetricView};
use crate::text::{decimal, push_decimal, push_usize};
use vstd::prelude::*;

verus! {

/// The name of the label that tells which task a metric is from.
pub const DISTRIBUTED_DATAFUSION_TASK_ID_LABEL: &'static str = "distributed_datafusion_task_id";

/// How the metrics of the tasks of a stage are shown.
#[derive(Debug, Clone, Copy, PartialEq, Eq, Structural)]
pub enum DistributedMetricsFormat {
    /// Together: a metric stands for all the tasks.
    Aggregated,
    /// Apart: each metric tells which task it is from.
    PerTask,
}

/// The task whose metrics are being rewritten, if they are to tell.
#[derive(Debug, Clone, Copy, PartialEq, Eq, Structural)]
pub struct RewriteCtx {
    pub task_id: Option<u64>,
}

impl Default for RewriteCtx {
    fn default() -> (ctx: Self)
        ensures
            ctx.task_id is None,
    {
        RewriteCtx { task_id: None }
    }
}

/// The context for rewriting the metrics of a task.
pub open spec fn rewrite_ctx(format: DistributedMetricsFormat, task_id: u64) -> RewriteCtx {
    match format {
        DistributedMetricsFormat::Aggregated => RewriteCtx { task_id: None },
        DistributedMetricsFormat::PerTask => RewriteCtx { task_id: Some(task_id) },
    }
}

impl DistributedMetricsFormat {
    /// The context for rewriting the metrics of a task.
    pub fn to_rewrite_ctx(self, task_id: u64) -> (ctx: RewriteCtx)
        ensures
            ctx == rewrite_ctx(self, task_id),
    {
        match self {
            DistributedMetricsFormat::Aggregated => RewriteCtx::default(),
            DistributedMetricsFormat::PerTask => RewriteCtx::from_task_id(task_id),
        }
    }
}

/// The label that tells that a metric is from the given task.
pub open spec fn task_label(task_id: u64) -> LabelView {
    LabelView { name: DISTRIBUTED_DATAFUSION_TASK_ID_LABEL@, value: decimal(task_id as nat) }
}

/// The metric with one more label.
pub open spec fn labelled(metric: MetricView, label: LabelView) -> MetricView {
    MetricView { labels: metric.labels.push(label), ..metric }
}

/// The metrics of a node as the context wants them.
pub open spec fn rewrite_set(ctx: RewriteCtx, metrics: Seq<MetricView>) -> Seq<MetricView> {
    match ctx.task_id {
        Some(task_id) => metrics.map_values(|m: MetricView| labelled(m, task_label(task_id))),
        None => metrics,
    }
}

impl RewriteCtx {
    /// Rewrites the metrics of the given task.
    pub fn from_task_id(task_id: u64) -> (ctx: RewriteCtx)
        ensures
            ctx.task_id == Some(task_id),
    {
        RewriteCtx { task_id: Some(task_id) }
    }

    /// Labels the metrics with the task, if they are to tell.
    pub fn maybe_rewrite_node_metics(&self, node_metrics: MetricsSet) -> (rewritten: MetricsSet)
        ensures
            rewritten@ == rewrite_set(*self, node_metrics@),
    {
        match self.task_id {
            Some(task_id) => annotate_metrics_set_with_task_id(node_metrics, task_id),
            None => node_metrics,
        }
    }
}

/// Adds a label with the task to every metric of a set.
pub fn annotate_metrics_set_with_task_id(metrics_set: MetricsSet, task_id: u64) -> (annotated:
    MetricsSet)
    ensures
        annotated@ == metrics_set@.map_values(|m: MetricView| labelled(m, task_label(task_id))),
{
    let ghost all = metrics_set.metrics@;
    let ghost goal = metrics_set@.map_values(|m: MetricView| labelled(m, task_label(task_id)));
    let mut annotated = MetricsSet::new();
    for metric in it: metrics_set.metrics
        invariant
            it.seq() == all,
            goal == metric_views(all).map_values(
                |m: MetricView| labelled(m, task_label(task_id)),
            ),
            annotated@ =~= goal.take(it.index() as int),
    {
        let ghost before = metric@;
        let mut labels = metric.labels;
        let ghost old_labels = labels@;
        let mut value = String::new();
        push_decimal(&mut value, task_id);
        let label = Label { name: DISTRIBUTED_DATAFUSION_TASK_ID_LABEL.to_owned(), value };
        proof {
            assert(label@.value =~= decimal(task_id as nat));
        }
        labels.push(label);
        proof {
            assert(label_views(labels@) =~= label_views(old_labels).push(task_label(task_id)));
        }
        annotated.push(Metric { value: metric.value, partition: metric.partition, labels });
        proof {
            assert(goal[it.index() as int] == labelled(before, task_label(task_id)));
        }
    }
    annotated
}

/// Why a plan cannot be shown with its metrics.
#[derive(Debug)]
pub enum RewriteError {
    /// The plan was not executed.
    NotExecuted,
    /// Two network boundaries hold metrics for the same task.
    DuplicateTaskMetrics(TaskKey),
    /// There are fewer metrics than nodes.
    NotEnoughMetrics,
    /// The plan of a stage is missing.
    MissingStagePlan,
    /// There are no metrics for a task of a stage.
    MissingTaskMetrics { task_id: usize, stage: usize },
    /// There are metrics for a task, but fewer than nodes.
    NotEnoughTaskMetrics { provided: usize },
    /// A metric cannot be read.
    Metrics(MetricsProtoError),
}

/// The contents of a [RewriteError].
#[verifier::ext_equal]
pub enum RewriteErrorView {
    NotExecuted,
    DuplicateTaskMetrics(TaskKeyView),
    NotEnoughMetrics,
    MissingStagePlan,
    MissingTaskMetrics { task_id: usize, stage: usize },
    NotEnoughTaskMetrics { provided: usize },
    Metrics(MetricsProtoErrorView),
}

impl View for RewriteError {
    type V = RewriteErrorView;

    open spec fn view(&self) -> RewriteErrorView {
        match self {
            RewriteError::NotExecuted => RewriteErrorView::NotExecuted,
            RewriteError::DuplicateTaskMetrics(key) => RewriteErrorView::DuplicateTaskMetrics(
                key@,
            ),
            RewriteError::NotEnoughMetrics => RewriteErrorView::NotEnoughMetrics,
            RewriteError::MissingStagePlan => RewriteErrorView::MissingStagePlan,
            RewriteError::MissingTaskMetrics { task_id, stage } =>
                RewriteErrorView::MissingTaskMetrics { task_id: *task_id, stage: *stage },
            RewriteError::NotEnoughTaskMetrics { provided } =>
                RewriteErrorView::NotEnoughTaskMetrics { provided: *provided },
            RewriteError::Metrics(e) => RewriteErrorView::Metrics(e@),
        }
    }
}

/// The text for a [RewriteError], where `shown` is the text for the key of a task.
pub open spec fn rewrite_error_text(error: RewriteErrorView, shown: Seq<char>) -> Seq<char> {
    match error {
        RewriteErrorView::NotExecuted => "No prepared plan found. Was execute() called?"@,
        RewriteErrorView::DuplicateTaskMetrics(_) => duplicate_text(shown),
        RewriteErrorView::NotEnoughMetrics => "not enough metrics provided to rewrite plan"@,
        RewriteErrorView::MissingStagePlan => "The inner plan of a stage was not present"@,
        RewriteErrorView::MissingTaskMetrics { task_id, stage } => {
            "not enough metrics provided to rewrite task: missing metrics for task "@ + decimal(
                task_id as nat,
            ) + " in stage "@ + decimal(stage as nat)
        },
        RewriteErrorView::NotEnoughTaskMetrics { provided } => {
            "not enough metrics provided to rewrite task: "@ + decimal(provided as nat)
                + " metrics provided"@
        },
        RewriteErrorView::Metrics(e) => metrics_error_text(e),
    }
}

impl RewriteError {
    /// The text of the error. `shown` is the text for the key of a task of which there are metrics
    /// twice.
    pub fn message(&self, shown: &str) -> (text: String)
        ensures
            text@ == rewrite_error_text(self@, shown@),
    {
        let mut text = String::new();
        match self {
            RewriteError::NotExecuted => {
                text.push_str("No prepared plan found. Was execute() called?");
            },
            RewriteError::DuplicateTaskMetrics(_) => {
                push_duplicate(&mut text, shown);
            },
            RewriteError::NotEnoughMetrics => {
                text.push_str("not enough metrics provided to rewrite plan");
            },
            RewriteError::MissingStagePlan => {
                text.push_str("The inner plan of a stage was not present");
            },
            RewriteError::MissingTaskMetrics { task_id, stage } => {
                text.push_str(
                    "not enough metrics provided to rewrite task: missing metrics for task ",
                );
                push_usize(&mut text, *task_id);
                text.push_str(" in stage ");
                push_usize(&mut text, *stage);
            },
            RewriteError::NotEnoughTaskMetrics { provided } => {
                text.push_str("not enough metrics provided to rewrite task: ");
                push_usize(&mut text, *provided);
                text.push_str(" metrics provided");
            },
            RewriteError::Metrics(e) => {
                text.push_str(e.message().as_str());
            },
        }
        proof {
            assert(text@ =~= rewrite_error_text(self@, shown@));
        }
        text
    }
}

/// Gives the nodes of a plan their metrics, in the order in which the plan is walked from the top
/// and down to the network boundaries. `next` is the position of the first metrics to use; the
/// result tells the position after the last. `None` if there are too few.
pub open spec fn rewrite_local(
    ctx: RewriteCtx,
    plan: ExecutedView,
    metrics: Seq<Seq<MetricView>>,
    next: nat,
) -> Option<(ExecutedView, nat)>
    decreases plan,
{
    if next >= metrics.len() {
        None
    } else {
        let rewritten = ExecutedView {
            metrics: Some(rewrite_set(ctx, metrics[next as int])),
            ..plan
        };
        if plan.boundary is Some {
            Some((rewritten, next + 1))
        } else {
            match rewrite_all_local(ctx, plan.children, metrics, next + 1) {
                Some((children, after)) => Some((ExecutedView { children, ..rewritten }, after)),
                None => None,
            }
        }
    }
}

pub open spec fn rewrite_all_local(
    ctx: RewriteCtx,
    plans: Seq<ExecutedView>,
    metrics: Seq<Seq<MetricView>>,
    next: nat,
) -> Option<(Seq<ExecutedView>, nat)>
    decreases plans,
{
    if plans.len() == 0 {
        Some((Seq::empty(), next))
    } else {
        match rewrite_all_local(ctx, plans.drop_last(), metrics, next) {
            Some((front, next)) => match rewrite_local(ctx, plans.last(), metrics, next) {
                Some((last, after)) => Some((front.push(last), after)),
                None => None,
            },
            None => None,
        }
    }
}

proof fn lemma_rewrite_all_local_prefix(
    ctx: RewriteCtx,
    plans: Seq<ExecutedView>,
    metrics: Seq<Seq<MetricView>>,
    next: nat,
    i: int,
)
    requires
        0 <= i <= plans.len(),
        rewrite_all_local(ctx, plans.take(i), metrics, next) is None,
    ensures
        rewrite_all_local(ctx, plans, metrics, next) is None,
    decreases plans.len() - i,
{
    if i == plans.len() {
        assert(plans.take(i) =~= plans);
    } else {
        assert(plans.take(i + 1).drop_last() =~= plans.take(i));
        lemma_rewrite_all_local_prefix(ctx, plans, metrics, next, i + 1);
    }
}

fn rewrite_local_node(
    ctx: &RewriteCtx,
    plan: &mut ExecutedPlan,
    metrics: &Vec<MetricsSet>,
    next: usize,
) -> (after: Option<usize>)
    requires
        next <= metrics@.len(),
        collections_wf(*old(plan)),
    ensures
        match (after, rewrite_local(*ctx, old(plan)@, df_sets_view(metrics@), next as nat)) {
            (Some(n), Some((rewritten, expected))) => final(plan)@ == rewritten && n == expected
                && n <= metrics@.len() && collections_wf(*final(plan)),
            (None, None) => true,
            _ => false,
        },
    decreases *old(plan),
{
    if next >= metrics.len() {
        return None;
    }
    let ghost inputs = plan@.children;
    let ghost views = df_sets_view(metrics@);
    proof {
        lemma_executed_children(*plan);
    }
    let node_metrics = ctx.maybe_rewrite_node_metics(metrics[next].clone());
    plan.metrics = Some(node_metrics);
    if plan.boundary.is_some() {
        proof {
            lemma_executed_children(*plan);
        }
        return Some(next + 1);
    }
    let mut position: usize = next + 1;
    let count: usize = plan.children.len();
    let ghost node_view = plan@;
    proof {
        assert(inputs.take(0) =~= Seq::empty());
        assert(executed_views(plan.children@).take(0) =~= Seq::empty());
    }
    for i in 0..count
        invariant
            count == inputs.len(),
            count == plan.children@.len(),
            inputs == executed_views(old(plan).children@),
            old(plan).children@.len() == count,
            collections_wf(*old(plan)),
            views == df_sets_view(metrics@),
            next < metrics@.len(),
            position <= metrics@.len(),
            old(plan)@.boundary is None,
            old(plan)@.children == inputs,
            plan.id == node_view.id,
            plan.boundary is None,
            plan@.metrics == node_view.metrics,
            rewrite_all_local(*ctx, inputs.take(i as int), views, (next + 1) as nat) == Some(
                (executed_views(plan.children@).take(i as int), position as nat),
            ),
            forall|j: int| 0 <= j < i ==> collections_wf(#[trigger] plan.children@[j]),
            forall|j: int|
                i <= j < count ==> #[trigger] plan.children@[j] == old(plan).children@[j],
    {
        let ghost mid = plan.children@;
        proof {
            assert(inputs.take(i + 1).drop_last() =~= inputs.take(i as int));
            assert(plan.children@[i as int] == old(plan).children@[i as int]);
            assert(inputs[i as int] == old(plan).children@[i as int]@);
            assert(collections_wf(old(plan).children@[i as int]));
        }
        match rewrite_local_node(ctx, &mut plan.children[i], metrics, position) {
            Some(after) => {
                position = after;
            },
            None => {
                proof {
                    lemma_rewrite_all_local_prefix(
                        *ctx,
                        inputs,
                        views,
                        (next + 1) as nat,
                        i + 1,
                    );
                }
                return None;
            },
        }
        proof {
            assert forall|j: int| 0 <= j < count && j != i implies (#[trigger] plan.children@[j])
                == mid[j] by {}
            assert(executed_views(plan.children@).take(i + 1) =~= executed_views(mid).take(
                i as int,
            ).push(plan.children@[i as int]@));
        }
    }
    proof {
        assert(inputs.take(count as int) =~= inputs);
        assert(executed_views(plan.children@).take(count as int) =~= executed_views(
            plan.children@,
        ));
        lemma_executed_children(*plan);
    }
    Some(position)
}

/// Gives the nodes of a plan their metrics, from the top down to the network boundaries.
pub fn rewrite_local_plan_with_metrics(
    ctx: RewriteCtx,
    plan: ExecutedPlan,
    metrics: Vec<MetricsSet>,
) -> (result: Result<ExecutedPlan, RewriteError>)
    requires
        collections_wf(plan),
    ensures
        match (result, rewrite_local(ctx, plan@, df_sets_view(metrics@), 0)) {
            (Ok(rewritten), Some((expected, _))) => rewritten@ == expected && collections_wf(
                rewritten,
            ),
            (Err(e), None) => e@ == RewriteErrorView::NotEnoughMetrics,
            _ => false,
        },
{
    let mut plan = plan;
    match rewrite_local_node(&ctx, &mut plan, &metrics, 0) {
        Some(_) => Ok(plan),
        None => Err(RewriteError::NotEnoughMetrics),
    }
}

/// The key of a task of a stage.
pub open spec fn stage_task_key(stage: InputStageView, task: nat) -> TaskKeyView {
    TaskKeyView {
        query_id: stage.query_id,
        stage_id: stage.num as u64,
        task_number: task as u64,
    }
}

/// The metrics of the `index`-th node of a stage, from the first `tasks` tasks one after the other.
pub open spec fn node_metrics(
    stage: InputStageView,
    collection: Map<TaskKeyView, Seq<Seq<WireMetricView>>>,
    format: DistributedMetricsFormat,
    index: nat,
    tasks: nat,
) -> Result<Seq<MetricView>, RewriteErrorView>
    decreases tasks,
{
    if tasks == 0 {
        Ok(Seq::empty())
    } else {
        let task = (tasks - 1) as nat;
        let key = stage_task_key(stage, task);
        match node_metrics(stage, collection, format, index, task) {
            Err(e) => Err(e),
            Ok(front) => if !collection.contains_key(key) {
                Err(
                    RewriteErrorView::MissingTaskMetrics {
                        task_id: task as usize,
                        stage: stage.num,
                    },
                )
            } else if index >= collection[key].len() {
                Err(
                    RewriteErrorView::NotEnoughTaskMetrics {
                        provided: collection[key].len() as usize,
                    },
                )
            } else {
                match set_from_wire(collection[key][index as int]) {
                    Ok(set) => Ok(
                        front + rewrite_set(rewrite_ctx(format, task as u64), set),
                    ),
                    Err(e) => Err(RewriteErrorView::Metrics(e)),
                }
            },
        }
    }
}

/// Gives the nodes of a stage the metrics of all its tasks, from the top down to the network
/// boundaries.
pub open spec fn rewrite_stage(
    stage: InputStageView,
    plan: ExecutedView,
    collection: Map<TaskKeyView, Seq<Seq<WireMetricView>>>,
    format: DistributedMetricsFormat,
    index: nat,
) -> Result<(ExecutedView, nat), RewriteErrorView>
    decreases plan,
{
    match node_metrics(stage, collection, format, index, stage.task_count as nat) {
        Err(e) => Err(e),
        Ok(metrics) => {
            let rewritten = ExecutedView { metrics: Some(metrics), ..plan };
            if plan.boundary is Some {
                Ok((rewritten, index + 1))
            } else {
                match rewrite_all_in_stage(stage, plan.children, collection, format, index + 1) {
                    Ok((children, after)) => Ok(
                        (ExecutedView { children, ..rewritten }, after),
                    ),
                    Err(e) => Err(e),
                }
            }
        },
    }
}

pub open spec fn rewrite_all_in_stage(
    stage: InputStageView,
    plans: Seq<ExecutedView>,
    collection: Map<TaskKeyView, Seq<Seq<WireMetricView>>>,
    format: DistributedMetricsFormat,
    index: nat,
) -> Result<(Seq<ExecutedView>, nat), RewriteErrorView>
    decreases plans,
{
    if plans.len() == 0 {
        Ok((Seq::empty(), index))
    } else {
        match rewrite_all_in_stage(stage, plans.drop_last(), collection, format, index) {
            Err(e) => Err(e),
            Ok((front, index)) => match rewrite_stage(
                stage,
                plans.last(),
                collection,
                format,
                index,
            ) {
                Ok((last, after)) => Ok((front.push(last), after)),
                Err(e) => Err(e),
            },
        }
    }
}

proof fn lemma_node_metrics_prefix(
    stage: InputStageView,
    collection: Map<TaskKeyView, Seq<Seq<WireMetricView>>>,
    format: DistributedMetricsFormat,
    index: nat,
    tasks: nat,
    all: nat,
)
    requires
        tasks <= all,
        node_metrics(stage, collection, format, index, tasks) is Err,
    ensures
        node_metrics(stage, collection, format, index, all) == node_metrics(
            stage,
            collection,
            format,
            index,
            tasks,
        ),
    decreases all - tasks,
{
    if tasks < all {
        lemma_node_metrics_prefix(stage, collection, format, index, tasks, (all - 1) as nat);
    }
}

proof fn lemma_rewrite_all_in_stage_prefix(
    stage: InputStageView,
    plans: Seq<ExecutedView>,
    collection: Map<TaskKeyView, Seq<Seq<WireMetricView>>>,
    format: DistributedMetricsFormat,
    index: nat,
    i: int,
)
    requires
        0 <= i <= plans.len(),
        rewrite_all_in_stage(stage, plans.take(i), collection, format, index) is Err,
    ensures
        rewrite_all_in_stage(stage, plans, collection, format, index) == rewrite_all_in_stage(
            stage,
            plans.take(i),
            collection,
            format,
            index,
        ),
    decreases plans.len() - i,
{
    if i == plans.len() {
        assert(plans.take(i) =~= plans);
    } else {
        assert(plans.take(i + 1).drop_last() =~= plans.take(i));
        lemma_rewrite_all_in_stage_prefix(stage, plans, collection, format, index, i + 1);
    }
}

fn gather_node_metrics(
    stage: &InputStage,
    collection: &MetricsCollection,
    format: DistributedMetricsFormat,
    index: usize,
) -> (result: Result<MetricsSet, RewriteError>)
    requires
        collection.wf(),
    ensures
        match (
            result,
            node_metrics(
                stage@,
                collection@,
                format,
                index as nat,
                stage.task_count as nat,
            ),
        ) {
            (Ok(metrics), Ok(expected)) => metrics@ == expected,
            (Err(e), Err(expected)) => e@ == expected,
            _ => false,
        },
{
    let mut gathered = MetricsSet::new();
    for task_id in 0..stage.task_count
        invariant
            collection.wf(),
            node_metrics(stage@, collection@, format, index as nat, task_id as nat) == Ok::<
                Seq<MetricView>,
                RewriteErrorView,
            >(gathered@),
    {
        let key = TaskKey {
            query_id: clone_bytes(&stage.query_id),
            stage_id: stage.num as u64,
            task_number: task_id as u64,
        };
        proof {
            assert(key@ =~= stage_task_key(stage@, task_id as nat));
            assert(((task_id + 1) as nat - 1) as nat == task_id as nat);
            if node_metrics(stage@, collection@, format, index as nat, (task_id + 1) as nat) is Err {
                lemma_node_metrics_prefix(
                    stage@,
                    collection@,
                    format,
                    index as nat,
                    (task_id + 1) as nat,
                    stage.task_count as nat,
                );
            }
        }
        let task_metrics = match collection.get(&key) {
            Some(metrics) => metrics,
            None => {
                return Err(
                    RewriteError::MissingTaskMetrics { task_id, stage: stage.num },
                );
            },
        };
        if index >= task_metrics.len() {
            return Err(RewriteError::NotEnoughTaskMetrics { provided: task_metrics.len() });
        }
        let node_metrics = match metrics_set_proto_to_df(&task_metrics[index]) {
            Ok(metrics) => metrics,
            Err(e) => {
                return Err(RewriteError::Metrics(e));
            },
        };
        let node_metrics = format.to_rewrite_ctx(task_id as u64).maybe_rewrite_node_metics(
            node_metrics,
        );
        let ghost before = gathered@;
        let ghost added = node_metrics@;
        let ghost added_metrics = node_metrics.metrics@;
        for metric in it: node_metrics.metrics
            invariant
                it.seq() == added_metrics,
                added == metric_views(added_metrics),
                gathered@ =~= before + added.take(it.index() as int),
        {
            gathered.push(metric);
        }
        proof {
            assert(added.take(added.len() as int) =~= added);
        }
    }
    Ok(gathered)
}

fn rewrite_stage_node(
    stage: &InputStage,
    plan: &mut ExecutedPlan,
    collection: &MetricsCollection,
    format: DistributedMetricsFormat,
    index: usize,
) -> (result: Result<usize, RewriteError>)
    requires
        collection.wf(),
        collections_wf(*old(plan)),
        index + node_count(old(plan)@) <= usize::MAX,
    ensures
        match (
            result,
            rewrite_stage(stage@, old(plan)@, collection@, format, index as nat),
        ) {
            (Ok(after), Ok((rewritten, expected))) => final(plan)@ == rewritten && after
                == expected && collections_wf(*final(plan)) && after <= index + node_count(
                old(plan)@,
            ),
            (Err(e), Err(expected)) => e@ == expected,
            _ => false,
        },
    decreases *old(plan),
{
    let ghost inputs = plan@.children;
    proof {
        lemma_executed_children(*plan);
    }
    let metrics = match gather_node_metrics(stage, collection, format, index) {
        Ok(metrics) => metrics,
        Err(e) => {
            return Err(e);
        },
    };
    plan.metrics = Some(metrics);
    if plan.boundary.is_some() {
        proof {
            lemma_executed_children(*plan);
        }
        return Ok(index + 1);
    }
    let mut position: usize = index + 1;
    let count: usize = plan.children.len();
    let ghost node_view = plan@;
    proof {
        assert(inputs.take(0) =~= Seq::empty());
        assert(executed_views(plan.children@).take(0) =~= Seq::empty());
    }
    for i in 0..count
        invariant
            collection.wf(),
            count == inputs.len(),
            count == plan.children@.len(),
            inputs == executed_views(old(plan).children@),
            old(plan).children@.len() == count,
            collections_wf(*old(plan)),
            old(plan)@.boundary is None,
            old(plan)@.children == inputs,
            index + 1 + nodes_of(inputs) <= usize::MAX,
            position <= index + 1 + nodes_of(inputs.take(i as int)),
            node_metrics(stage@, collection@, format, index as nat, stage.task_count as nat)
                is Ok,
            node_view.metrics == Some(
                node_metrics(stage@, collection@, format, index as nat, stage.task_count as nat)->Ok_0,
            ),
            plan.id == node_view.id,
            plan.boundary is None,
            plan@.metrics == node_view.metrics,
            rewrite_all_in_stage(
                stage@,
                inputs.take(i as int),
                collection@,
                format,
                (index + 1) as nat,
            ) == Ok::<(Seq<ExecutedView>, nat), RewriteErrorView>(
                (executed_views(plan.children@).take(i as int), position as nat),
            ),
            forall|j: int| 0 <= j < i ==> collections_wf(#[trigger] plan.children@[j]),
            forall|j: int|
                i <= j < count ==> #[trigger] plan.children@[j] == old(plan).children@[j],
    {
        let ghost mid = plan.children@;
        proof {
            assert(inputs.take(i + 1).drop_last() =~= inputs.take(i as int));
            assert(plan.children@[i as int] == old(plan).children@[i as int]);
            assert(inputs[i as int] == old(plan).children@[i as int]@);
            assert(collections_wf(old(plan).children@[i as int]));
            lemma_nodes_of_prefix(inputs, i + 1);
        }
        match rewrite_stage_node(stage, &mut plan.children[i], collection, format, position) {
            Ok(after) => {
                position = after;
            },
            Err(e) => {
                proof {
                    lemma_rewrite_all_in_stage_prefix(
                        stage@,
                        inputs,
                        collection@,
                        format,
                        (index + 1) as nat,
                        i + 1,
                    );
                }
                return Err(e);
            },
        }
        proof {
            assert forall|j: int| 0 <= j < count && j != i implies (#[trigger] plan.children@[j])
                == mid[j] by {}
            assert(executed_views(plan.children@).take(i + 1) =~= executed_views(mid).take(
                i as int,
            ).push(plan.children@[i as int]@));
        }
    }
    proof {
        assert(inputs.take(count as int) =~= inputs);
        assert(executed_views(plan.children@).take(count as int) =~= executed_views(
            plan.children@,
        ));
        lemma_executed_children(*plan);
    }
    Ok(position)
}

/// The number of nodes of a plan.
pub open spec fn node_count(plan: ExecutedView) -> nat
    decreases plan,
{
    1 + nodes_of(plan.children)
}

pub open spec fn nodes_of(plans: Seq<ExecutedView>) -> nat
    decreases plans,
{
    if plans.len() == 0 {
        0
    } else {
        nodes_of(plans.drop_last()) + node_count(plans.last())
    }
}

proof fn lemma_nodes_of_prefix(plans: Seq<ExecutedView>, i: int)
    requires
        0 <= i <= plans.len(),
    ensures
        nodes_of(plans.take(i)) <= nodes_of(plans),
    decreases plans.len() - i,
{
    if i < plans.len() {
        lemma_nodes_of_prefix(plans, i + 1);
        assert(plans.take(i + 1).drop_last() =~= plans.take(i));
    } else {
        assert(plans.take(i) =~= plans);
    }
}

/// Gives the nodes of a stage the metrics of all its tasks.
pub fn stage_metrics_rewriter(
    stage: &InputStage,
    plan: Option<ExecutedPlan>,
    metrics_collection: &MetricsCollection,
    format: DistributedMetricsFormat,
) -> (result: Result<ExecutedPlan, RewriteError>)
    requires
        metrics_collection.wf(),
        plan matches Some(plan) ==> collections_wf(plan) && node_count(plan@) <= usize::MAX,
    ensures
        match plan {
            None => result matches Err(e) && e@ == RewriteErrorView::MissingStagePlan,
            Some(plan) => match (
                result,
                rewrite_stage(stage@, plan@, metrics_collection@, format, 0),
            ) {
                (Ok(rewritten), Ok((expected, _))) => rewritten@ == expected && collections_wf(
                    rewritten,
                ),
                (Err(e), Err(expected)) => e@ == expected,
                _ => false,
            },
        },
{
    let mut plan = match plan {
        Some(plan) => plan,
        None => {
            return Err(RewriteError::MissingStagePlan);
        },
    };
    match rewrite_stage_node(stage, &mut plan, metrics_collection, format, 0) {
        Ok(_) => Ok(plan),
        Err(e) => Err(e),
    }
}

/// The number of nodes on the longest way down.
pub open spec fn plan_height(plan: ExecutedView) -> nat
    decreases plan,
{
    1 + tallest(plan.children)
}

pub open spec fn tallest(plans: Seq<ExecutedView>) -> nat
    decreases plans,
{
    if plans.len() == 0 {
        0
    } else {
        let rest = tallest(plans.drop_last());
        let last = plan_height(plans.last());
        if last > rest { last } else { rest }
    }
}

proof fn lemma_tallest(plans: Seq<ExecutedView>, i: int)
    requires
        0 <= i < plans.len(),
    ensures
        plan_height(plans[i]) <= tallest(plans),
    decreases plans.len(),
{
    if i < plans.len() - 1 {
        lemma_tallest(plans.drop_last(), i);
    }
}

proof fn lemma_node_count_of_child(plans: Seq<ExecutedView>, i: int)
    requires
        0 <= i < plans.len(),
    ensures
        node_count(plans[i]) <= nodes_of(plans),
    decreases plans.len(),
{
    if i < plans.len() - 1 {
        lemma_node_count_of_child(plans.drop_last(), i);
    }
}

/// Rewriting a stage keeps the shape of its plan.
proof fn lemma_rewrite_stage_shape(
    stage: InputStageView,
    plan: ExecutedView,
    collection: Map<TaskKeyView, Seq<Seq<WireMetricView>>>,
    format: DistributedMetricsFormat,
    index: nat,
)
    ensures
        rewrite_stage(stage, plan, collection, format, index) matches Ok((rewritten, _)) ==> {
            &&& plan_height(rewritten) == plan_height(plan)
            &&& node_count(rewritten) == node_count(plan)
        },
    decreases plan,
{
    lemma_rewrite_all_in_stage_shape(stage, plan.children, collection, format, index + 1);
}

proof fn lemma_rewrite_all_in_stage_shape(
    stage: InputStageView,
    plans: Seq<ExecutedView>,
    collection: Map<TaskKeyView, Seq<Seq<WireMetricView>>>,
    format: DistributedMetricsFormat,
    index: nat,
)
    ensures
        rewrite_all_in_stage(stage, plans, collection, format, index) matches Ok((rewritten, _))
            ==> {
            &&& tallest(rewritten) == tallest(plans)
            &&& nodes_of(rewritten) == nodes_of(plans)
        },
    decreases plans,
{
    if plans.len() > 0 {
        lemma_rewrite_all_in_stage_shape(stage, plans.drop_last(), collection, format, index);
        if let Ok((front, next)) = rewrite_all_in_stage(
            stage,
            plans.drop_last(),
            collection,
            format,
            index,
        ) {
            lemma_rewrite_stage_shape(stage, plans.last(), collection, format, next);
            if let Ok((rewritten, _)) = rewrite_all_in_stage(
                stage,
                plans,
                collection,
                format,
                index,
            ) {
                assert(rewritten.drop_last() =~= front);
            }
        }
    }
}

/// Gives the nodes of all the stages below a plan their metrics: at each network boundary those of
/// the stage below it, and then those of the stages below that one. `fuel` bounds the depth and is
/// at least the plan's height.
pub open spec fn rewrite_below(
    fuel: nat,
    plan: ExecutedView,
    collection: Map<TaskKeyView, Seq<Seq<WireMetricView>>>,
    format: DistributedMetricsFormat,
) -> Result<ExecutedView, RewriteErrorView>
    decreases fuel, 0nat,
{
    if fuel == 0 {
        Ok(plan)
    } else {
        match plan.boundary {
            Some(boundary) => if plan.children.len() == 0 {
                Err(RewriteErrorView::MissingStagePlan)
            } else {
                match rewrite_stage(boundary.stage, plan.children[0], collection, format, 0) {
                    Err(e) => Err(e),
                    Ok((child, _)) => match rewrite_below(
                        (fuel - 1) as nat,
                        child,
                        collection,
                        format,
                    ) {
                        Err(e) => Err(e),
                        Ok(child) => Ok(
                            ExecutedView {
                                metrics: Some(
                                    match plan.metrics {
                                        Some(metrics) => metrics,
                                        None => Seq::empty(),
                                    },
                                ),
                                children: seq![child],
                                ..plan
                            },
                        ),
                    },
                }
            },
            None => match rewrite_all_below((fuel - 1) as nat, plan.children, collection, format) {
                Ok(children) => Ok(ExecutedView { children, ..plan }),
                Err(e) => Err(e),
            },
        }
    }
}

pub open spec fn rewrite_all_below(
    fuel: nat,
    plans: Seq<ExecutedView>,
    collection: Map<TaskKeyView, Seq<Seq<WireMetricView>>>,
    format: DistributedMetricsFormat,
) -> Result<Seq<ExecutedView>, RewriteErrorView>
    decreases fuel, plans.len() + 1,
{
    if plans.len() == 0 {
        Ok(Seq::empty())
    } else {
        match rewrite_all_below(fuel, plans.drop_last(), collection, format) {
            Err(e) => Err(e),
            Ok(front) => match rewrite_below(fuel, plans.last(), collection, format) {
                Ok(last) => Ok(front.push(last)),
                Err(e) => Err(e),
            },
        }
    }
}

proof fn lemma_rewrite_all_below_prefix(
    fuel: nat,
    plans: Seq<ExecutedView>,
    collection: Map<TaskKeyView, Seq<Seq<WireMetricView>>>,
    format: DistributedMetricsFormat,
    i: int,
)
    requires
        0 <= i <= plans.len(),
        rewrite_all_below(fuel, plans.take(i), collection, format) is Err,
    ensures
        rewrite_all_below(fuel, plans, collection, format) == rewrite_all_below(
            fuel,
            plans.take(i),
            collection,
            format,
        ),
    decreases plans.len() - i,
{
    if i == plans.len() {
        assert(plans.take(i) =~= plans);
    } else {
        assert(plans.take(i + 1).drop_last() =~= plans.take(i));
        lemma_rewrite_all_below_prefix(fuel, plans, collection, format, i + 1);
    }
}

fn rewrite_stages_below(
    plan: ExecutedPlan,
    collection: &MetricsCollection,
    format: DistributedMetricsFormat,
    Ghost(fuel): Ghost<nat>,
) -> (result: Result<ExecutedPlan, RewriteError>)
    requires
        collection.wf(),
        collections_wf(plan),
        plan_height(plan@) <= fuel,
        node_count(plan@) <= usize::MAX,
    ensures
        match (result, rewrite_below(fuel, plan@, collection@, format)) {
            (Ok(rewritten), Ok(expected)) => rewritten@ == expected,
            (Err(e), Err(expected)) => e@ == expected,
            _ => false,
        },
    decreases fuel,
{
    let ghost inputs = plan@.children;
    let ghost plan_view = plan@;
    proof {
        lemma_executed_children(plan);
    }
    let ExecutedPlan { id, metrics, boundary, children } = plan;
    match boundary {
        Some(boundary) => {
            let mut children = children;
            if children.len() == 0 {
                return Err(RewriteError::MissingStagePlan);
            }
            let child = children.swap_remove(0);
            proof {
                assert(child@ == inputs[0]);
                lemma_tallest(inputs, 0);
                lemma_node_count_of_child(inputs, 0);
                lemma_rewrite_stage_shape(boundary.stage@, inputs[0], collection@, format, 0);
            }
            let child = match stage_metrics_rewriter(
                &boundary.stage,
                Some(child),
                collection,
                format,
            ) {
                Ok(child) => child,
                Err(e) => {
                    return Err(e);
                },
            };
            let child = match rewrite_stages_below(
                child,
                collection,
                format,
                Ghost((fuel - 1) as nat),
            ) {
                Ok(child) => child,
                Err(e) => {
                    return Err(e);
                },
            };
            let ghost child_view = child@;
            let metrics = match metrics {
                Some(metrics) => Some(metrics),
                None => Some(MetricsSet::new()),
            };
            let rewritten = ExecutedPlan {
                id,
                metrics,
                boundary: Some(boundary),
                children: vec![child],
            };
            proof {
                lemma_executed_children(rewritten);
                assert(rewritten@.children =~= seq![child_view]);
            }
            Ok(rewritten)
        },
        None => {
            let ghost all = children@;
            let mut rewritten_children: Vec<ExecutedPlan> = Vec::new();
            proof {
                assert(inputs.take(0) =~= Seq::empty());
                assert(executed_views(rewritten_children@) =~= Seq::empty());
            }
            for child in it: children
                invariant
                    it.seq() == all,
                    collection.wf(),
                    fuel >= 1,
                    inputs == executed_views(all),
                    tallest(inputs) <= fuel - 1,
                    nodes_of(inputs) <= usize::MAX,
                    plan_view.boundary is None,
                    plan_view.children == inputs,
                    rewrite_below(fuel, plan_view, collection@, format) == (
                    match rewrite_all_below((fuel - 1) as nat, inputs, collection@, format) {
                        Ok(children) => Ok(ExecutedView { children, ..plan_view }),
                        Err(e) => Err(e),
                    }),
                    plan_view == plan@,
                    forall|j: int| 0 <= j < all.len() ==> collections_wf(#[trigger] all[j]),
                    rewrite_all_below(
                        (fuel - 1) as nat,
                        inputs.take(it.index() as int),
                        collection@,
                        format,
                    ) == Ok::<Seq<ExecutedView>, RewriteErrorView>(
                        executed_views(rewritten_children@),
                    ),
            {
                let ghost i = it.index() as int;
                proof {
                    assert(inputs.take(i + 1).drop_last() =~= inputs.take(i));
                    assert(all[i] == child);
                    assert(inputs[i] == child@);
                    lemma_tallest(inputs, i);
                    lemma_node_count_of_child(inputs, i);
                }
                match rewrite_stages_below(child, collection, format, Ghost((fuel - 1) as nat)) {
                    Ok(child) => {
                        let ghost before = rewritten_children@;
                        rewritten_children.push(child);
                        proof {
                            assert(executed_views(rewritten_children@) =~= executed_views(
                                before,
                            ).push(child@));
                        }
                    },
                    Err(e) => {
                        proof {
                            lemma_rewrite_all_below_prefix(
                                (fuel - 1) as nat,
                                inputs,
                                collection@,
                                format,
                                i + 1,
                            );
                        }
                        return Err(e);
                    },
                }
            }
            let rewritten = ExecutedPlan {
                id,
                metrics,
                boundary: None,
                children: rewritten_children,
            };
            proof {
                assert(inputs.take(inputs.len() as int) =~= inputs);
                lemma_executed_children(rewritten);
            }
            Ok(rewritten)
        },
    }
}

/// A plan that runs here, or one that was spread over workers.
pub enum RootPlan {
    Local(ExecutedPlan),
    /// The plan that was spread, and what it became when it was executed.
    Distributed { plan: ExecutedPlan, prepared_plan: Option<ExecutedPlan> },
}

/// The plan that was spread, with the metrics of all its nodes.
pub open spec fn plan_with_metrics(
    plan: ExecutedView,
    collected: CollectedView,
    format: DistributedMetricsFormat,
) -> Result<ExecutedView, RewriteErrorView> {
    match rewrite_local(rewrite_ctx(format, 0), plan, collected.task_metrics, 0) {
        None => Err(RewriteErrorView::NotEnoughMetrics),
        Some((rewritten, _)) => rewrite_below(
            plan_height(rewritten),
            rewritten,
            collected.input_task_metrics,
            format,
        ),
    }
}

/// Shows a plan with the metrics that were collected while it was executed. What the plan became when
/// it was executed is kept, without the metrics that were taken out of it. A plan that was not spread
/// over workers is left as it is.
pub fn rewrite_distributed_plan_with_metrics(root: RootPlan, format: DistributedMetricsFormat) -> (
result: Result<RootPlan, RewriteError>)
    requires
        root matches RootPlan::Distributed { plan, prepared_plan } ==> {
            &&& collections_wf(plan)
            &&& node_count(plan@) <= usize::MAX
            &&& prepared_plan matches Some(prepared) ==> collections_wf(prepared)
        },
    ensures
        match root {
            RootPlan::Local(_) => result == Ok::<RootPlan, RewriteError>(root),
            RootPlan::Distributed { plan, prepared_plan } => match prepared_plan {
                None => result matches Err(e) && e@ == RewriteErrorView::NotExecuted,
                Some(prepared) => match collect_plan(prepared@, nothing_collected()) {
                    Err(duplicates) => result matches Err(e)
                        && e@ matches RewriteErrorView::DuplicateTaskMetrics(key)
                        && duplicates.contains(key),
                    Ok(collected) => match (result, plan_with_metrics(plan@, collected, format)) {
                        (
                            Ok(RootPlan::Distributed { plan: shown, prepared_plan: kept }),
                            Ok(expected),
                        ) => shown@ == expected && (kept matches Some(kept) && kept@ == drained(
                            prepared@,
                        )),
                        (Err(e), Err(expected)) => e@ == expected,
                        _ => false,
                    },
                },
            },
        },
{
    let (plan, prepared_plan) = match root {
        RootPlan::Local(plan) => {
            return Ok(RootPlan::Local(plan));
        },
        RootPlan::Distributed { plan, prepared_plan } => (plan, prepared_plan),
    };
    let mut prepared = match prepared_plan {
        Some(prepared) => prepared,
        None => {
            return Err(RewriteError::NotExecuted);
        },
    };
    let collected = match TaskMetricsCollector::new().collect(&mut prepared) {
        Ok(collected) => collected,
        Err(e) => {
            return Err(RewriteError::DuplicateTaskMetrics(e.key));
        },
    };
    let rewritten = match rewrite_local_plan_with_metrics(
        format.to_rewrite_ctx(0),
        plan,
        collected.task_metrics,
    ) {
        Ok(rewritten) => rewritten,
        Err(e) => {
            return Err(e);
        },
    };
    proof {
        lemma_rewrite_local_shape(
            rewrite_ctx(format, 0),
            plan@,
            df_sets_view(collected.task_metrics@),
            0,
        );
    }
    let ghost fuel = plan_height(rewritten@);
    match rewrite_stages_below(rewritten, &collected.input_task_metrics, format, Ghost(fuel)) {
        Ok(plan) => Ok(RootPlan::Distributed { plan, prepared_plan: Some(prepared) }),
        Err(e) => Err(e),
    }
}

/// Rewriting a plan keeps its shape.
proof fn lemma_rewrite_local_shape(
    ctx: RewriteCtx,
    plan: ExecutedView,
    metrics: Seq<Seq<MetricView>>,
    next: nat,
)
    ensures
        rewrite_local(ctx, plan, metrics, next) matches Some((rewritten, _)) ==> node_count(
            rewritten,
        ) == node_count(plan),
    decreases plan,
{
    lemma_rewrite_all_local_shape(ctx, plan.children, metrics, next + 1);
}

proof fn lemma_rewrite_all_local_shape(
    ctx: RewriteCtx,
    plans: Seq<ExecutedView>,
    metrics: Seq<Seq<MetricView>>,
    next: nat,
)
    ensures
        rewrite_all_local(ctx, plans, metrics, next) matches Some((rewritten, _)) ==> nodes_of(
            rewritten,
        ) == nodes_of(plans),
    decreases plans,
{
    if plans.len() > 0 {
        lemma_rewrite_all_local_shape(ctx, plans.drop_last(), metrics, next);
        if let Some((front, position)) = rewrite_all_local(
            ctx,
            plans.drop_last(),
            metrics,
            next,
        ) {
            lemma_rewrite_local_shape(ctx, plans.last(), metrics, position);
            if let Some((rewritten, _)) = rewrite_all_local(ctx, plans, metrics, next) {
                assert(rewritten.drop_last() =~= front);
            }
        }
    }
}

/// The metrics of a node, none if it has none.
pub open spec fn own_metrics(plan: ExecutedView) -> Seq<MetricView> {
    match plan.metrics {
        Some(metrics) => metrics,
        None => Seq::empty(),
    }
}

/// The metrics of the nodes of a plan in the order in which it is walked from the top.
pub open spec fn walk_metrics(plan: ExecutedView) -> Seq<Seq<MetricView>>
    decreases plan,
{
    if plan.boundary is Some {
        seq![own_metrics(plan)]
    } else {
        seq![own_metrics(plan)] + walk_all_metrics(plan.children)
    }
}

pub open spec fn walk_all_metrics(plans: Seq<ExecutedView>) -> Seq<Seq<MetricView>>
    decreases plans,
{
    if plans.len() == 0 {
        Seq::empty()
    } else {
        walk_all_metrics(plans.drop_last()) + walk_metrics(plans.last())
    }
}

/// The plan in which every node down to the network boundaries shows metrics, its own.
pub open spec fn showing_own_metrics(ctx: RewriteCtx, plan: ExecutedView) -> ExecutedView
    decreases plan,
{
    let shown = ExecutedView { metrics: Some(rewrite_set(ctx, own_metrics(plan))), ..plan };
    if plan.boundary is Some {
        shown
    } else {
        ExecutedView { children: all_showing_own_metrics(ctx, plan.children), ..shown }
    }
}

pub open spec fn all_showing_own_metrics(ctx: RewriteCtx, plans: Seq<ExecutedView>) -> Seq<
    ExecutedView,
>
    decreases plans,
{
    if plans.len() == 0 {
        Seq::empty()
    } else {
        all_showing_own_metrics(ctx, plans.drop_last()).push(
            showing_own_metrics(ctx, plans.last()),
        )
    }
}

proof fn lemma_collect_walks(plan: ExecutedView, so_far: CollectedView)
    ensures
        collect_plan(plan, so_far) matches Ok(collected) ==> collected.task_metrics
            == so_far.task_metrics + walk_metrics(plan),
    decreases plan,
{
    let pushed = CollectedView {
        task_metrics: so_far.task_metrics.push(own_metrics(plan)),
        ..so_far
    };
    assert(pushed.task_metrics =~= so_far.task_metrics + seq![own_metrics(plan)]);
    if plan.boundary is None {
        lemma_collect_all_walks(plan.children, pushed);
        if let Ok(collected) = collect_plan(plan, so_far) {
            assert(collected.task_metrics =~= so_far.task_metrics + walk_metrics(plan));
        }
    }
}

proof fn lemma_collect_all_walks(plans: Seq<ExecutedView>, so_far: CollectedView)
    ensures
        collect_plans(plans, so_far) matches Ok(collected) ==> collected.task_metrics
            == so_far.task_metrics + walk_all_metrics(plans),
    decreases plans,
{
    if plans.len() == 0 {
        assert(so_far.task_metrics =~= so_far.task_metrics + Seq::empty());
    } else {
        lemma_collect_all_walks(plans.drop_last(), so_far);
        if let Ok(front) = collect_plans(plans.drop_last(), so_far) {
            lemma_collect_walks(plans.last(), front);
            if let Ok(collected) = collect_plans(plans, so_far) {
                assert(collected.task_metrics =~= so_far.task_metrics + walk_all_metrics(plans));
            }
        }
    }
}

/// The metrics of a plan stand at the given position of a list.
pub open spec fn stands_at(
    metrics: Seq<Seq<MetricView>>,
    part: Seq<Seq<MetricView>>,
    position: nat,
) -> bool {
    &&& position + part.len() <= metrics.len()
    &&& forall|i: int| 0 <= i < part.len() ==> metrics[position + i] == #[trigger] part[i]
}

proof fn lemma_rewrite_finds_own(
    ctx: RewriteCtx,
    plan: ExecutedView,
    metrics: Seq<Seq<MetricView>>,
    next: nat,
)
    requires
        stands_at(metrics, walk_metrics(plan), next),
    ensures
        rewrite_local(ctx, plan, metrics, next) == Some(
            (showing_own_metrics(ctx, plan), next + walk_metrics(plan).len()),
        ),
    decreases plan,
{
    let walk = walk_metrics(plan);
    assert(walk[0] == own_metrics(plan));
    assert(metrics[next + 0int] == walk[0]);
    if plan.boundary is None {
        let rest = walk_all_metrics(plan.children);
        assert forall|i: int| 0 <= i < rest.len() implies metrics[(next + 1) + i]
            == #[trigger] rest[i] by {
            assert(walk[i + 1] == rest[i]);
            assert(metrics[next + (i + 1)] == walk[i + 1]);
        }
        lemma_rewrite_all_finds_own(ctx, plan.children, metrics, next + 1);
    }
}

proof fn lemma_rewrite_all_finds_own(
    ctx: RewriteCtx,
    plans: Seq<ExecutedView>,
    metrics: Seq<Seq<MetricView>>,
    next: nat,
)
    requires
        stands_at(metrics, walk_all_metrics(plans), next),
    ensures
        rewrite_all_local(ctx, plans, metrics, next) == Some(
            (all_showing_own_metrics(ctx, plans), next + walk_all_metrics(plans).len()),
        ),
    decreases plans,
{
    if plans.len() > 0 {
        let walk = walk_all_metrics(plans);
        let front = walk_all_metrics(plans.drop_last());
        let last = walk_metrics(plans.last());
        assert forall|i: int| 0 <= i < front.len() implies metrics[next + i]
            == #[trigger] front[i] by {
            assert(walk[i] == front[i]);
            assert(metrics[next + i] == walk[i]);
        }
        lemma_rewrite_all_finds_own(ctx, plans.drop_last(), metrics, next);
        let position = next + front.len();
        assert forall|i: int| 0 <= i < last.len() implies metrics[position + i]
            == #[trigger] last[i] by {
            assert(walk[front.len() + i] == last[i]);
            assert(metrics[next + (front.len() + i)] == walk[front.len() + i]);
        }
        lemma_rewrite_finds_own(ctx, plans.last(), metrics, position);
    }
}

/// Metrics are collected from a plan in the order in which they are given back to its nodes: when
/// a plan is shown with the metrics that were collected from it, every node shows its own.
pub proof fn every_node_shows_its_own_metrics(ctx: RewriteCtx, plan: ExecutedView)
    ensures
        collect_plan(plan, nothing_collected()) matches Ok(collected) ==> (rewrite_local(
            ctx,
            plan,
            collected.task_metrics,
            0,
        ) matches Some((shown, _)) && shown == showing_own_metrics(ctx, plan)),
{
    lemma_collect_walks(plan, nothing_collected());
    if let Ok(collected) = collect_plan(plan, nothing_collected()) {
        assert(collected.task_metrics =~= walk_metrics(plan));
        lemma_rewrite_finds_own(ctx, plan, collected.task_metrics, 0);
    }
}

/// Labelling metrics keeps their number, their measurements and their partitions, and keeps every
/// label that was there.
pub proof fn labelling_keeps_metrics(ctx: RewriteCtx, metrics: Seq<MetricView>, i: int, j: int)
    requires
        0 <= i < metrics.len(),
        0 <= j < metrics[i].labels.len(),
    ensures
        rewrite_set(ctx, metrics).len() == metrics.len(),
        rewrite_set(ctx, metrics)[i].value == metrics[i].value,
        rewrite_set(ctx, metrics)[i].partition == metrics[i].partition,
        rewrite_set(ctx, metrics)[i].labels[j] == metrics[i].labels[j],
{
}

} // verus!
