use crate::distributed_planner::plan::{
    clone_runs, runs_view, CardinalityEffect, Node, NodeKind, PartitionMode,
    Partitioning, Plan, PlanView,
};
use crate::distributed_planner::task_estimator::{
    annotation_count, limit_annotation, merge_annotations, TaskCountAnnotation,
};
use crate::execution_plans::children_isolator_union::{
    most_partitions, split_outcome, total_count, ChildrenIsolatorUnionExec, Slot, SplitError,
};
use vstd::prelude::*;

verus! {

/// What the annotation of a plan depends on besides the plan.
#[derive(Debug, Clone, Copy, PartialEq, Eq, Structural)]
pub struct PlannerConfig {
    /// Whether the build side of a join may be sent to all the tasks of the probe side.
    pub broadcast_joins: bool,
    /// Whether the children of a union may run in different tasks.
    pub children_isolator_unions: bool,
    /// No stage runs on more tasks than this.
    pub max_tasks: usize,
}

/// The largest number of tasks for a stage: what is configured, or one task per worker if
/// nothing is. At least one.
pub fn resolve_max_tasks(max_tasks_per_stage: usize, worker_count: usize) -> (max_tasks: usize)
    ensures
        max_tasks == if max_tasks_per_stage != 0 {
            max_tasks_per_stage
        } else if worker_count == 0 {
            1
        } else {
            worker_count
        },
{
    if max_tasks_per_stage != 0 {
        max_tasks_per_stage
    } else if worker_count == 0 {
        1
    } else {
        worker_count
    }
}

/// Why a plan cannot be annotated.
#[derive(Debug, Clone, Copy, PartialEq, Eq, Structural)]
pub enum AnnotationError {
    /// The children of a union cannot be spread over its tasks.
    Split(SplitError),
    /// The tasks of the children of a union are too many to count.
    TooManyTasks,
    /// The partitions of the children of a union are too many to count.
    TooManyPartitions,
}

/// A node of the plan, or the place where data must cross the network.
#[derive(Debug)]
pub enum PlanOrNetworkBoundary {
    Plan { node: Node, task_idx_map: Vec<Vec<Slot>> },
    Shuffle,
    Coalesce,
    Broadcast,
}

/// The contents of a [PlanOrNetworkBoundary].
#[verifier::ext_equal]
pub enum PlanOrNetworkBoundaryView {
    Plan { node: Node, task_idx_map: Seq<Seq<Slot>> },
    Shuffle,
    Coalesce,
    Broadcast,
}

impl View for PlanOrNetworkBoundary {
    type V = PlanOrNetworkBoundaryView;

    open spec fn view(&self) -> PlanOrNetworkBoundaryView {
        match self {
            PlanOrNetworkBoundary::Plan { node, task_idx_map } => PlanOrNetworkBoundaryView::Plan {
                node: *node,
                task_idx_map: runs_view(task_idx_map@),
            },
            PlanOrNetworkBoundary::Shuffle => PlanOrNetworkBoundaryView::Shuffle,
            PlanOrNetworkBoundary::Coalesce => PlanOrNetworkBoundaryView::Coalesce,
            PlanOrNetworkBoundary::Broadcast => PlanOrNetworkBoundaryView::Broadcast,
        }
    }
}

impl PlanOrNetworkBoundary {
    /// Whether data crosses the network here.
    pub fn is_network_boundary(&self) -> (boundary: bool)
        ensures
            boundary == !(self is Plan),
    {
        match self {
            PlanOrNetworkBoundary::Plan { .. } => false,
            PlanOrNetworkBoundary::Shuffle => true,
            PlanOrNetworkBoundary::Coalesce => true,
            PlanOrNetworkBoundary::Broadcast => true,
        }
    }
}

/// A plan in which every node knows how many tasks it runs on, and in which the places where
/// data must cross the network are marked.
#[derive(Debug)]
pub struct AnnotatedPlan {
    pub plan_or_nb: PlanOrNetworkBoundary,
    pub children: Vec<AnnotatedPlan>,
    pub task_count: TaskCountAnnotation,
}

/// The contents of an [AnnotatedPlan].
#[verifier::ext_equal]
pub struct AnnotatedView {
    pub plan_or_nb: PlanOrNetworkBoundaryView,
    pub children: Seq<AnnotatedView>,
    pub task_count: TaskCountAnnotation,
}

pub open spec fn annotated_view(plan: AnnotatedPlan) -> AnnotatedView
    decreases plan,
{
    AnnotatedView {
        plan_or_nb: plan.plan_or_nb@,
        children: Seq::new(
            plan.children@.len(),
            |i: int|
                if 0 <= i < plan.children@.len() {
                    annotated_view(plan.children@[i])
                } else {
                    arbitrary()
                },
        ),
        task_count: plan.task_count,
    }
}

impl View for AnnotatedPlan {
    type V = AnnotatedView;

    open spec fn view(&self) -> AnnotatedView {
        annotated_view(*self)
    }
}

/// The views of some annotated plans.
pub open spec fn annotated_views(plans: Seq<AnnotatedPlan>) -> Seq<AnnotatedView> {
    Seq::new(plans.len(), |i: int| plans[i]@)
}

/// By how much the data grows or shrinks on its way up through a stage, as an expression over
/// the configured factor.
#[derive(Debug)]
pub enum ScaleFactor {
    /// The data stays as it is.
    One,
    /// The data shrinks by the factor.
    Divided(Box<ScaleFactor>),
    /// The data grows by the factor.
    Multiplied(Box<ScaleFactor>),
    /// The larger of the two.
    Larger(Box<ScaleFactor>, Box<ScaleFactor>),
}

/// The largest growth among the given plans, if there are any.
pub open spec fn largest_factor(plans: Seq<AnnotatedView>) -> Option<ScaleFactor>
    decreases plans,
{
    if plans.len() == 0 {
        None
    } else {
        let last = scale_factor(plans.last());
        match largest_factor(plans.drop_last()) {
            None => Some(last),
            Some(rest) => Some(ScaleFactor::Larger(Box::new(rest), Box::new(last))),
        }
    }
}

/// The growth of the data from the bottom of a stage to the given plan.
pub open spec fn scale_factor(plan: AnnotatedView) -> ScaleFactor
    decreases plan,
{
    match plan.plan_or_nb {
        PlanOrNetworkBoundaryView::Plan { node, .. } => {
            let below = match largest_factor(plan.children) {
                None => ScaleFactor::One,
                Some(factor) => factor,
            };
            match node.cardinality_effect {
                CardinalityEffect::LowerEqual => ScaleFactor::Divided(Box::new(below)),
                CardinalityEffect::GreaterEqual => ScaleFactor::Multiplied(Box::new(below)),
                _ => below,
            }
        },
        _ => ScaleFactor::One,
    }
}

/// The number of nodes on the longest way down.
pub open spec fn height(plan: AnnotatedView) -> nat
    decreases plan,
{
    1 + max_height(plan.children)
}

pub open spec fn max_height(plans: Seq<AnnotatedView>) -> nat
    decreases plans,
{
    if plans.len() == 0 {
        0
    } else {
        let rest = max_height(plans.drop_last());
        let last = height(plans.last());
        if last > rest { last } else { rest }
    }
}

/// The task counts of some plans.
pub open spec fn task_counts(plans: Seq<AnnotatedView>) -> Seq<usize> {
    Seq::new(plans.len(), |i: int| annotation_count(plans[i].task_count))
}

/// The partitions of the node of the original plan that an annotated plan stands for: a network
/// boundary stands for the node right below it.
pub open spec fn source_partitions(plan: AnnotatedView) -> usize
    decreases plan,
{
    match plan.plan_or_nb {
        PlanOrNetworkBoundaryView::Plan { node, .. } => node.partitioning.count(),
        _ => if plan.children.len() == 0 {
            0
        } else {
            source_partitions(plan.children[0])
        },
    }
}

pub open spec fn all_source_partitions(plans: Seq<AnnotatedView>) -> Seq<usize> {
    Seq::new(plans.len(), |i: int| source_partitions(plans[i]))
}

/// How the children of a union are spread over the tasks of its stage, and how many partitions
/// the union then has.
pub open spec fn isolate_children(children: Seq<AnnotatedView>, task_count: usize) -> Result<
    (Seq<Seq<Slot>>, usize),
    AnnotationError,
> {
    if total_count(task_counts(children)) > usize::MAX {
        Err(AnnotationError::TooManyTasks)
    } else if total_count(all_source_partitions(children)) > usize::MAX {
        Err(AnnotationError::TooManyPartitions)
    } else {
        match split_outcome(task_counts(children), task_count) {
            Ok(runs) => Ok(
                (runs, most_partitions(runs, all_source_partitions(children)) as usize),
            ),
            Err(e) => Err(AnnotationError::Split(e)),
        }
    }
}

/// The node that takes the place of a union whose children are isolated.
pub open spec fn isolated_union_node(node: Node, partition_count: usize) -> Node {
    Node {
        kind: NodeKind::ChildrenIsolatorUnion,
        partitioning: Partitioning::UnknownPartitioning(partition_count),
        cardinality_effect: CardinalityEffect::Unknown,
        ..node
    }
}

/// The task count that each of several plans is given.
pub enum Spread {
    /// All of them the same.
    Same(TaskCountAnnotation),
    /// Each its own, but not more than this.
    Capped(usize),
}

pub open spec fn spread_count(spread: Spread, plan: AnnotatedView) -> TaskCountAnnotation {
    match spread {
        Spread::Same(task_count) => task_count,
        Spread::Capped(max) => limit_annotation(plan.task_count, max),
    }
}

/// Gives a task count to all the nodes of a stage, from the given plan down to the network
/// boundaries below it. What lies below a boundary is left alone, with one exception: a maximum
/// also holds for the build side of a broadcast. The children of an isolated union get the number
/// of tasks that they were cut into. `fuel` bounds the depth and is at least the plan's height.
pub open spec fn propagate(
    fuel: nat,
    plan: AnnotatedView,
    task_count: TaskCountAnnotation,
    cfg: PlannerConfig,
) -> Result<AnnotatedView, AnnotationError>
    decreases fuel, 0nat,
{
    if fuel == 0 {
        Ok(plan)
    } else {
        match plan.plan_or_nb {
            PlanOrNetworkBoundaryView::Broadcast => match task_count {
                TaskCountAnnotation::Maximum(max) => with_children(
                    AnnotatedView { task_count, ..plan },
                    propagate_all((fuel - 1) as nat, plan.children, Spread::Capped(max), cfg),
                ),
                TaskCountAnnotation::Desired(_) => Ok(AnnotatedView { task_count, ..plan }),
            },
            PlanOrNetworkBoundaryView::Plan { node, .. } => if cfg.children_isolator_unions
                && node.kind is Union {
                match isolate_children(plan.children, annotation_count(task_count)) {
                    Err(e) => Err(e),
                    Ok((runs, partition_count)) => with_children(
                        AnnotatedView {
                            plan_or_nb: PlanOrNetworkBoundaryView::Plan {
                                node: isolated_union_node(node, partition_count),
                                task_idx_map: runs,
                            },
                            task_count,
                            ..plan
                        },
                        propagate_runs((fuel - 1) as nat, plan.children, runs, cfg),
                    ),
                }
            } else {
                with_children(
                    AnnotatedView { task_count, ..plan },
                    propagate_all((fuel - 1) as nat, plan.children, Spread::Same(task_count), cfg),
                )
            },
            _ => Ok(AnnotatedView { task_count, ..plan }),
        }
    }
}

/// The plan with other children, if there are any.
pub open spec fn with_children(
    plan: AnnotatedView,
    children: Result<Seq<AnnotatedView>, AnnotationError>,
) -> Result<AnnotatedView, AnnotationError> {
    match children {
        Ok(children) => Ok(AnnotatedView { children, ..plan }),
        Err(e) => Err(e),
    }
}

/// Gives a task count to several stages that share a parent, from the first to the last.
pub open spec fn propagate_all(
    fuel: nat,
    plans: Seq<AnnotatedView>,
    spread: Spread,
    cfg: PlannerConfig,
) -> Result<Seq<AnnotatedView>, AnnotationError>
    decreases fuel, plans.len() + 1,
{
    if plans.len() == 0 {
        Ok(Seq::empty())
    } else {
        match propagate_all(fuel, plans.drop_last(), spread, cfg) {
            Err(e) => Err(e),
            Ok(front) => match propagate(
                fuel,
                plans.last(),
                spread_count(spread, plans.last()),
                cfg,
            ) {
                Err(e) => Err(e),
                Ok(last) => Ok(front.push(last)),
            },
        }
    }
}

/// Gives the children of an isolated union that one task runs the tasks they were cut into.
pub open spec fn propagate_run(
    fuel: nat,
    plans: Seq<AnnotatedView>,
    run: Seq<Slot>,
    cfg: PlannerConfig,
) -> Result<Seq<AnnotatedView>, AnnotationError>
    decreases fuel, run.len() + 1,
{
    if run.len() == 0 {
        Ok(plans)
    } else {
        match propagate_run(fuel, plans, run.drop_last(), cfg) {
            Err(e) => Err(e),
            Ok(front) => {
                let (child, task_ctx) = run.last();
                if child < front.len() {
                    match propagate(
                        fuel,
                        front[child as int],
                        TaskCountAnnotation::Maximum(task_ctx.task_count),
                        cfg,
                    ) {
                        Err(e) => Err(e),
                        Ok(plan) => Ok(front.update(child as int, plan)),
                    }
                } else {
                    Ok(front)
                }
            },
        }
    }
}

/// Does so for the children that each task runs, from the first task to the last.
pub open spec fn propagate_runs(
    fuel: nat,
    plans: Seq<AnnotatedView>,
    runs: Seq<Seq<Slot>>,
    cfg: PlannerConfig,
) -> Result<Seq<AnnotatedView>, AnnotationError>
    decreases fuel, runs_weight(runs),
{
    if runs.len() == 0 {
        Ok(plans)
    } else {
        match propagate_runs(fuel, plans, runs.drop_last(), cfg) {
            Err(e) => Err(e),
            Ok(front) => propagate_run(fuel, front, runs.last(), cfg),
        }
    }
}

/// Decreases from each list of runs to the shorter ones that it is propagated through.
pub open spec fn runs_weight(runs: Seq<Seq<Slot>>) -> nat
    decreases runs.len(),
{
    if runs.len() == 0 {
        1
    } else {
        runs_weight(runs.drop_last()) + runs.last().len() + 2
    }
}

/// The task count that a node with children settles on, before it is capped.
pub open spec fn settle_task_count(
    node: Node,
    children: Seq<AnnotatedView>,
    cfg: PlannerConfig,
) -> TaskCountAnnotation {
    if cfg.children_isolator_unions && node.kind is Union {
        TaskCountAnnotation::Desired(total_count(task_counts(children)) as usize)
    } else if node.kind matches NodeKind::HashJoin { mode, .. } && mode is CollectLeft
        && !cfg.broadcast_joins {
        TaskCountAnnotation::Maximum(1)
    } else {
        merge_all(
            match node.estimation {
                Some(estimation) => estimation,
                None => TaskCountAnnotation::Desired(1),
            },
            children,
        )
    }
}

/// What a node and all its children agree on.
pub open spec fn merge_all(
    own: TaskCountAnnotation,
    children: Seq<AnnotatedView>,
) -> TaskCountAnnotation
    decreases children.len(),
{
    if children.len() == 0 {
        own
    } else {
        merge_annotations(merge_all(own, children.drop_last()), children.last().task_count)
    }
}

/// The network boundary that is needed right above a node with children, if any: a shuffle above
/// a hash repartition, and below a node that brings all partitions together a broadcast if that
/// is what is being collected, a coalesce otherwise.
pub open spec fn boundary_above(node: Node, parent: Option<Node>) -> Option<
    PlanOrNetworkBoundaryView,
> {
    if node.kind is Repartition {
        if node.partitioning is Hash {
            Some(PlanOrNetworkBoundaryView::Shuffle)
        } else {
            None
        }
    } else if parent matches Some(p) && (p.kind is CoalescePartitions
        || p.kind is SortPreservingMerge) {
        if node.kind is Broadcast {
            Some(PlanOrNetworkBoundaryView::Broadcast)
        } else {
            Some(PlanOrNetworkBoundaryView::Coalesce)
        }
    } else {
        None
    }
}

/// How far the annotation of a plan has come, given the task counts that are already known for
/// the stages above network boundaries.
pub enum AnnotationProgress<A> {
    /// It is finished, and used this many of the known task counts.
    Done(A, nat),
    /// The task count of the next stage must be found: that of the stage below is `previous`,
    /// and the data grew by `factor` on its way through it.
    NeedsTaskCount { previous: usize, factor: ScaleFactor },
    Failed(AnnotationError),
}

/// Annotates a leaf.
pub open spec fn annotate_leaf(plan: PlanView, cfg: PlannerConfig) -> AnnotatedView {
    AnnotatedView {
        plan_or_nb: PlanOrNetworkBoundaryView::Plan {
            node: plan.node,
            task_idx_map: plan.task_idx_map,
        },
        children: Seq::empty(),
        task_count: match plan.node.estimation {
            Some(estimation) => limit_annotation(estimation, cfg.max_tasks),
            None => TaskCountAnnotation::Maximum(1),
        },
    }
}

/// Annotates a node whose children are annotated already.
pub open spec fn annotate_parent(
    plan: PlanView,
    children: Seq<AnnotatedView>,
    cfg: PlannerConfig,
) -> AnnotatedView {
    AnnotatedView {
        plan_or_nb: PlanOrNetworkBoundaryView::Plan {
            node: plan.node,
            task_idx_map: plan.task_idx_map,
        },
        children,
        task_count: limit_annotation(
            settle_task_count(plan.node, children, cfg),
            cfg.max_tasks,
        ),
    }
}

/// Gives the whole stage that ends in `plan` the task count that `plan` settled on.
pub open spec fn settle_stage(plan: AnnotatedView, cfg: PlannerConfig) -> Result<
    AnnotatedView,
    AnnotationError,
> {
    propagate(height(plan), plan, plan.task_count, cfg)
}

/// Puts a network boundary above an annotated plan. The stage that ends there is given its final
/// task count. Above a coalesce everything runs in one task; above any other boundary
/// the task count of the next stage is taken from the known ones.
pub open spec fn annotate_boundary(
    boundary: PlanOrNetworkBoundaryView,
    plan: AnnotatedView,
    cfg: PlannerConfig,
    known: Seq<usize>,
    used: nat,
) -> AnnotationProgress<AnnotatedView> {
    match settle_stage(plan, cfg) {
        Err(e) => AnnotationProgress::Failed(e),
        Ok(below) => if boundary is Coalesce {
            AnnotationProgress::Done(
                AnnotatedView {
                    plan_or_nb: boundary,
                    children: seq![below],
                    task_count: TaskCountAnnotation::Maximum(1),
                },
                used,
            )
        } else if used < known.len() {
            AnnotationProgress::Done(
                AnnotatedView {
                    plan_or_nb: boundary,
                    children: seq![below],
                    task_count: TaskCountAnnotation::Desired(known[used as int]),
                },
                used + 1,
            )
        } else {
            AnnotationProgress::NeedsTaskCount {
                previous: annotation_count(plan.task_count),
                factor: scale_factor(below),
            }
        },
    }
}

/// Annotates a plan from its leaves up.
pub open spec fn annotate(
    plan: PlanView,
    parent: Option<Node>,
    cfg: PlannerConfig,
    root: bool,
    known: Seq<usize>,
    used: nat,
) -> AnnotationProgress<AnnotatedView>
    decreases plan,
{
    if plan.children.len() == 0 {
        AnnotationProgress::Done(annotate_leaf(plan, cfg), used)
    } else {
        match annotate_children(plan.children, plan.node, cfg, known, used) {
            AnnotationProgress::Done(children, used) => if cfg.children_isolator_unions
                && plan.node.kind is Union && total_count(task_counts(children)) > usize::MAX {
                AnnotationProgress::Failed(AnnotationError::TooManyTasks)
            } else {
                let annotated = annotate_parent(plan, children, cfg);
                match boundary_above(plan.node, parent) {
                    Some(boundary) => annotate_boundary(boundary, annotated, cfg, known, used),
                    None => if root {
                        match settle_stage(annotated, cfg) {
                            Ok(settled) => AnnotationProgress::Done(settled, used),
                            Err(e) => AnnotationProgress::Failed(e),
                        }
                    } else {
                        AnnotationProgress::Done(annotated, used)
                    },
                }
            },
            AnnotationProgress::NeedsTaskCount {
                previous,
                factor,
            } => AnnotationProgress::NeedsTaskCount { previous, factor },
            AnnotationProgress::Failed(e) => AnnotationProgress::Failed(e),
        }
    }
}

/// Annotates the children of a node, from the first to the last.
pub open spec fn annotate_children(
    plans: Seq<PlanView>,
    parent: Node,
    cfg: PlannerConfig,
    known: Seq<usize>,
    used: nat,
) -> AnnotationProgress<Seq<AnnotatedView>>
    decreases plans,
{
    if plans.len() == 0 {
        AnnotationProgress::Done(Seq::empty(), used)
    } else {
        match annotate_children(plans.drop_last(), parent, cfg, known, used) {
            AnnotationProgress::Done(front, used) => match annotate(
                plans.last(),
                Some(parent),
                cfg,
                false,
                known,
                used,
            ) {
                AnnotationProgress::Done(last, used) => AnnotationProgress::Done(
                    front.push(last),
                    used,
                ),
                AnnotationProgress::NeedsTaskCount {
                    previous,
                    factor,
                } => AnnotationProgress::NeedsTaskCount { previous, factor },
                AnnotationProgress::Failed(e) => AnnotationProgress::Failed(e),
            },
            failed => failed,
        }
    }
}

pub(crate) proof fn lemma_max_height(plans: Seq<AnnotatedView>, i: int)
    requires
        0 <= i < plans.len(),
    ensures
        height(plans[i]) <= max_height(plans),
    decreases plans.len(),
{
    if i < plans.len() - 1 {
        lemma_max_height(plans.drop_last(), i);
    }
}

/// Plans of the same heights, one by one, have the same largest height.
proof fn lemma_same_heights(a: Seq<AnnotatedView>, b: Seq<AnnotatedView>)
    requires
        a.len() == b.len(),
        forall|i: int| 0 <= i < a.len() ==> height(#[trigger] a[i]) == height(b[i]),
    ensures
        max_height(a) == max_height(b),
    decreases a.len(),
{
    if a.len() > 0 {
        let n = a.len() - 1;
        assert forall|i: int| 0 <= i < n implies height(#[trigger] a.drop_last()[i]) == height(
            b.drop_last()[i],
        ) by {
            assert(height(a[i]) == height(b[i]));
        }
        lemma_same_heights(a.drop_last(), b.drop_last());
        assert(height(a[n]) == height(b[n]));
    }
}

pub(crate) proof fn lemma_propagate_height(
    fuel: nat,
    plan: AnnotatedView,
    task_count: TaskCountAnnotation,
    cfg: PlannerConfig,
)
    ensures
        propagate(fuel, plan, task_count, cfg) matches Ok(p) ==> height(p) == height(plan),
    decreases fuel, 0nat,
{
    if fuel > 0 {
        let less = (fuel - 1) as nat;
        match plan.plan_or_nb {
            PlanOrNetworkBoundaryView::Broadcast => {
                if let TaskCountAnnotation::Maximum(max) = task_count {
                    lemma_propagate_all_height(less, plan.children, Spread::Capped(max), cfg);
                    if let Ok(children) = propagate_all(
                        less,
                        plan.children,
                        Spread::Capped(max),
                        cfg,
                    ) {
                        lemma_same_heights(children, plan.children);
                    }
                }
            },
            PlanOrNetworkBoundaryView::Plan { node, .. } => {
                if cfg.children_isolator_unions && node.kind is Union {
                    if let Ok((runs, partition_count)) = isolate_children(
                        plan.children,
                        annotation_count(task_count),
                    ) {
                        lemma_propagate_runs_height(less, plan.children, runs, cfg);
                        if let Ok(children) = propagate_runs(less, plan.children, runs, cfg) {
                            lemma_same_heights(children, plan.children);
                        }
                    }
                } else {
                    lemma_propagate_all_height(less, plan.children, Spread::Same(task_count), cfg);
                    if let Ok(children) = propagate_all(
                        less,
                        plan.children,
                        Spread::Same(task_count),
                        cfg,
                    ) {
                        lemma_same_heights(children, plan.children);
                    }
                }
            },
            _ => {},
        }
    }
}

proof fn lemma_propagate_all_height(
    fuel: nat,
    plans: Seq<AnnotatedView>,
    spread: Spread,
    cfg: PlannerConfig,
)
    ensures
        propagate_all(fuel, plans, spread, cfg) matches Ok(ps) ==> ps.len() == plans.len()
            && forall|i: int|
            0 <= i < plans.len() ==> height(#[trigger] ps[i]) == height(plans[i]),
    decreases fuel, plans.len() + 1,
{
    if plans.len() > 0 {
        lemma_propagate_all_height(fuel, plans.drop_last(), spread, cfg);
        lemma_propagate_height(fuel, plans.last(), spread_count(spread, plans.last()), cfg);
        if let Ok(ps) = propagate_all(fuel, plans, spread, cfg) {
            let front = propagate_all(fuel, plans.drop_last(), spread, cfg)->Ok_0;
            assert forall|i: int| 0 <= i < plans.len() implies height(#[trigger] ps[i]) == height(
                plans[i],
            ) by {
                if i < plans.len() - 1 {
                    assert(height(front[i]) == height(plans.drop_last()[i]));
                }
            }
        }
    }
}

pub(crate) proof fn lemma_propagate_run_height(
    fuel: nat,
    plans: Seq<AnnotatedView>,
    run: Seq<Slot>,
    cfg: PlannerConfig,
)
    ensures
        propagate_run(fuel, plans, run, cfg) matches Ok(ps) ==> ps.len() == plans.len()
            && forall|i: int|
            0 <= i < plans.len() ==> height(#[trigger] ps[i]) == height(plans[i]),
    decreases fuel, run.len() + 1,
{
    if run.len() > 0 {
        lemma_propagate_run_height(fuel, plans, run.drop_last(), cfg);
        if let Ok(front) = propagate_run(fuel, plans, run.drop_last(), cfg) {
            let (child, task_ctx) = run.last();
            if child < front.len() {
                lemma_propagate_height(
                    fuel,
                    front[child as int],
                    TaskCountAnnotation::Maximum(task_ctx.task_count),
                    cfg,
                );
                if let Ok(ps) = propagate_run(fuel, plans, run, cfg) {
                    assert forall|i: int| 0 <= i < plans.len() implies height(#[trigger] ps[i])
                        == height(plans[i]) by {
                        assert(height(front[i]) == height(plans[i]));
                    }
                }
            }
        }
    }
}

pub(crate) proof fn lemma_propagate_runs_height(
    fuel: nat,
    plans: Seq<AnnotatedView>,
    runs: Seq<Seq<Slot>>,
    cfg: PlannerConfig,
)
    ensures
        propagate_runs(fuel, plans, runs, cfg) matches Ok(ps) ==> ps.len() == plans.len()
            && forall|i: int|
            0 <= i < plans.len() ==> height(#[trigger] ps[i]) == height(plans[i]),
    decreases fuel, runs_weight(runs),
{
    if runs.len() > 0 {
        lemma_propagate_runs_height(fuel, plans, runs.drop_last(), cfg);
        if let Ok(front) = propagate_runs(fuel, plans, runs.drop_last(), cfg) {
            lemma_propagate_run_height(fuel, front, runs.last(), cfg);
            if let Ok(ps) = propagate_runs(fuel, plans, runs, cfg) {
                assert forall|i: int| 0 <= i < plans.len() implies height(#[trigger] ps[i])
                    == height(plans[i]) by {
                    assert(height(front[i]) == height(plans[i]));
                }
            }
        }
    }
}

/// A failure among the first plans is a failure of all of them.
proof fn lemma_propagate_all_prefix(
    fuel: nat,
    plans: Seq<AnnotatedView>,
    spread: Spread,
    cfg: PlannerConfig,
    i: int,
)
    requires
        0 <= i <= plans.len(),
        propagate_all(fuel, plans.take(i), spread, cfg) is Err,
    ensures
        propagate_all(fuel, plans, spread, cfg) == propagate_all(fuel, plans.take(i), spread, cfg),
    decreases plans.len() - i,
{
    if i == plans.len() {
        assert(plans.take(i) =~= plans);
    } else {
        assert(plans.take(i + 1).drop_last() =~= plans.take(i));
        lemma_propagate_all_prefix(fuel, plans, spread, cfg, i + 1);
    }
}

proof fn lemma_propagate_run_prefix(
    fuel: nat,
    plans: Seq<AnnotatedView>,
    run: Seq<Slot>,
    cfg: PlannerConfig,
    i: int,
)
    requires
        0 <= i <= run.len(),
        propagate_run(fuel, plans, run.take(i), cfg) is Err,
    ensures
        propagate_run(fuel, plans, run, cfg) == propagate_run(fuel, plans, run.take(i), cfg),
    decreases run.len() - i,
{
    if i == run.len() {
        assert(run.take(i) =~= run);
    } else {
        assert(run.take(i + 1).drop_last() =~= run.take(i));
        lemma_propagate_run_prefix(fuel, plans, run, cfg, i + 1);
    }
}

proof fn lemma_propagate_runs_prefix(
    fuel: nat,
    plans: Seq<AnnotatedView>,
    runs: Seq<Seq<Slot>>,
    cfg: PlannerConfig,
    i: int,
)
    requires
        0 <= i <= runs.len(),
        propagate_runs(fuel, plans, runs.take(i), cfg) is Err,
    ensures
        propagate_runs(fuel, plans, runs, cfg) == propagate_runs(fuel, plans, runs.take(i), cfg),
    decreases runs.len() - i,
{
    if i == runs.len() {
        assert(runs.take(i) =~= runs);
    } else {
        assert(runs.take(i + 1).drop_last() =~= runs.take(i));
        lemma_propagate_runs_prefix(fuel, plans, runs, cfg, i + 1);
    }
}

fn calculate_scale_factor(plan: &AnnotatedPlan) -> (factor: ScaleFactor)
    ensures
        factor == scale_factor(plan@),
    decreases plan,
{
    let effect = match &plan.plan_or_nb {
        PlanOrNetworkBoundary::Plan { node, .. } => node.cardinality_effect,
        _ => {
            return ScaleFactor::One;
        },
    };
    let mut largest: Option<ScaleFactor> = None;
    for i in 0..plan.children.len()
        invariant
            largest == largest_factor(plan@.children.take(i as int)),
    {
        let factor = calculate_scale_factor(&plan.children[i]);
        proof {
            assert(plan@.children.take(i + 1).drop_last() =~= plan@.children.take(i as int));
        }
        largest = match largest {
            None => Some(factor),
            Some(rest) => Some(ScaleFactor::Larger(Box::new(rest), Box::new(factor))),
        };
    }
    proof {
        assert(plan@.children.take(plan@.children.len() as int) =~= plan@.children);
    }
    let below = match largest {
        None => ScaleFactor::One,
        Some(factor) => factor,
    };
    match effect {
        CardinalityEffect::LowerEqual => ScaleFactor::Divided(Box::new(below)),
        CardinalityEffect::GreaterEqual => ScaleFactor::Multiplied(Box::new(below)),
        _ => below,
    }
}

fn find_source_partitions(plan: &AnnotatedPlan) -> (count: usize)
    ensures
        count == source_partitions(plan@),
    decreases plan,
{
    match &plan.plan_or_nb {
        PlanOrNetworkBoundary::Plan { node, .. } => node.partitioning.partition_count(),
        _ => if plan.children.len() == 0 {
            0
        } else {
            find_source_partitions(&plan.children[0])
        },
    }
}

/// Whether some numbers add up to one that can still be counted.
fn sum_fits(counts: &Vec<usize>) -> (fits: bool)
    ensures
        fits == (total_count(counts@) <= usize::MAX),
{
    let mut total: usize = 0;
    for i in 0..counts.len()
        invariant
            total == total_count(counts@.take(i as int)),
    {
        proof {
            assert(counts@.take(i + 1).drop_last() =~= counts@.take(i as int));
        }
        match total.checked_add(counts[i]) {
            Some(sum) => {
                total = sum;
            },
            None => {
                proof {
                    lemma_total_grows(counts@, i + 1);
                }
                return false;
            },
        }
    }
    proof {
        assert(counts@.take(counts@.len() as int) =~= counts@);
    }
    true
}

proof fn lemma_total_grows(counts: Seq<usize>, i: int)
    requires
        0 <= i <= counts.len(),
    ensures
        total_count(counts.take(i)) <= total_count(counts),
    decreases counts.len() - i,
{
    if i < counts.len() {
        lemma_total_grows(counts, i + 1);
        assert(counts.take(i + 1).drop_last() =~= counts.take(i));
    } else {
        assert(counts.take(i) =~= counts);
    }
}

fn collect_task_counts(plans: &Vec<AnnotatedPlan>) -> (counts: Vec<usize>)
    ensures
        counts@ == task_counts(annotated_views(plans@)),
{
    let mut counts: Vec<usize> = Vec::new();
    for i in 0..plans.len()
        invariant
            counts@ =~= task_counts(annotated_views(plans@)).take(i as int),
    {
        counts.push(plans[i].task_count.as_usize());
    }
    counts
}

fn collect_source_partitions(plans: &Vec<AnnotatedPlan>) -> (counts: Vec<usize>)
    ensures
        counts@ == all_source_partitions(annotated_views(plans@)),
{
    let mut counts: Vec<usize> = Vec::new();
    for i in 0..plans.len()
        invariant
            counts@ =~= all_source_partitions(annotated_views(plans@)).take(i as int),
    {
        counts.push(find_source_partitions(&plans[i]));
    }
    counts
}

proof fn lemma_children_view(plan: AnnotatedPlan)
    ensures
        plan@.children == annotated_views(plan.children@),
{
    assert(plan@.children =~= annotated_views(plan.children@));
}

/// Spreads the children of a union of the plan, which the query engine has united, over tasks.
fn split_union(plans: &Vec<AnnotatedPlan>, task_count: usize) -> (result: Result<
    ChildrenIsolatorUnionExec,
    AnnotationError,
>)
    ensures
        match (result, isolate_children(annotated_views(plans@), task_count)) {
            (Ok(union), Ok((runs, partition_count))) => union.runs() == runs
                && union.partition_count == partition_count,
            (Err(e), Err(expected)) => e == expected,
            _ => false,
        },
{
    let counts = collect_task_counts(plans);
    if !sum_fits(&counts) {
        return Err(AnnotationError::TooManyTasks);
    }
    let partitions = collect_source_partitions(plans);
    if !sum_fits(&partitions) {
        return Err(AnnotationError::TooManyPartitions);
    }
    match ChildrenIsolatorUnionExec::spread(partitions, counts, task_count) {
        Ok(union) => Ok(union),
        Err(e) => Err(AnnotationError::Split(e)),
    }
}

/// Gives a task count to a whole stage.
fn propagate_task_count(
    plan: &mut AnnotatedPlan,
    task_count: TaskCountAnnotation,
    cfg: &PlannerConfig,
    Ghost(fuel): Ghost<nat>,
) -> (result: Result<(), AnnotationError>)
    requires
        height(old(plan)@) <= fuel,
    ensures
        match (result, propagate(fuel, old(plan)@, task_count, *cfg)) {
            (Ok(()), Ok(propagated)) => final(plan)@ == propagated,
            (Err(e), Err(expected)) => e == expected,
            _ => false,
        },
    decreases fuel, 0nat,
{
    let ghost before = plan@;
    proof {
        lemma_children_view(*plan);
    }
    plan.task_count = task_count;
    let node = match &plan.plan_or_nb {
        PlanOrNetworkBoundary::Plan { node, .. } => *node,
        PlanOrNetworkBoundary::Broadcast => {
            if let TaskCountAnnotation::Maximum(max) = task_count {
                let result = propagate_to_children(
                    &mut plan.children,
                    None,
                    max,
                    cfg,
                    Ghost((fuel - 1) as nat),
                );
                proof {
                    lemma_children_view(*plan);
                }
                return result;
            }
            proof {
                assert(plan@.children =~= before.children);
            }
            return Ok(());
        },
        PlanOrNetworkBoundary::Shuffle | PlanOrNetworkBoundary::Coalesce => {
            proof {
                assert(plan@.children =~= before.children);
            }
            return Ok(());
        },
    };
    if cfg.children_isolator_unions && matches!(node.kind, NodeKind::Union) {
        let union = match split_union(&plan.children, task_count.as_usize()) {
            Ok(union) => union,
            Err(e) => {
                return Err(e);
            },
        };
        let result = propagate_to_runs(
            &mut plan.children,
            &union.task_idx_map,
            cfg,
            Ghost((fuel - 1) as nat),
        );
        if let Err(e) = result {
            return Err(e);
        }
        plan.plan_or_nb = PlanOrNetworkBoundary::Plan {
            node: Node {
                id: node.id,
                kind: NodeKind::ChildrenIsolatorUnion,
                partitioning: Partitioning::UnknownPartitioning(union.partition_count),
                cardinality_effect: CardinalityEffect::Unknown,
                estimation: node.estimation,
            },
            task_idx_map: union.task_idx_map,
        };
        proof {
            lemma_children_view(*plan);
            assert(runs_view(union.task_idx_map@) =~= union.runs());
        }
        Ok(())
    } else {
        let result = propagate_to_children(
            &mut plan.children,
            Some(task_count),
            0,
            cfg,
            Ghost((fuel - 1) as nat),
        );
        proof {
            lemma_children_view(*plan);
        }
        result
    }
}

/// Gives the same task count to several plans, or caps each at `max` if there is none to give.
fn propagate_to_children(
    plans: &mut Vec<AnnotatedPlan>,
    task_count: Option<TaskCountAnnotation>,
    max: usize,
    cfg: &PlannerConfig,
    Ghost(fuel): Ghost<nat>,
) -> (result: Result<(), AnnotationError>)
    requires
        max_height(annotated_views(old(plans)@)) <= fuel,
    ensures
        match (
            result,
            propagate_all(
                fuel,
                annotated_views(old(plans)@),
                match task_count {
                    Some(task_count) => Spread::Same(task_count),
                    None => Spread::Capped(max),
                },
                *cfg,
            ),
        ) {
            (Ok(()), Ok(propagated)) => annotated_views(final(plans)@) == propagated,
            (Err(e), Err(expected)) => e == expected,
            _ => false,
        },
    decreases fuel, old(plans)@.len() + 1,
{
    let ghost before = annotated_views(plans@);
    let ghost spread = match task_count {
        Some(task_count) => Spread::Same(task_count),
        None => Spread::Capped(max),
    };
    let count: usize = plans.len();
    proof {
        assert(before.take(0) =~= Seq::empty());
        assert(annotated_views(plans@).take(0) =~= Seq::empty());
    }
    for i in 0..count
        invariant
            count == before.len(),
            count == old(plans)@.len(),
            plans@.len() == count,
            max_height(before) <= fuel,
            spread == match task_count {
                Some(task_count) => Spread::Same(task_count),
                None => Spread::Capped(max),
            },
            before == annotated_views(old(plans)@),
            propagate_all(fuel, before.take(i as int), spread, *cfg) == Ok::<
                Seq<AnnotatedView>,
                AnnotationError,
            >(annotated_views(plans@).take(i as int)),
            forall|j: int| i <= j < count ==> (#[trigger] plans@[j])@ == before[j],
    {
        let own = plans[i].task_count;
        let given = match task_count {
            Some(task_count) => task_count,
            None => own.limit(max),
        };
        let ghost mid = plans@;
        proof {
            lemma_max_height(before, i as int);
            assert(plans@[i as int]@ == before[i as int]);
            assert(before.take(i + 1).drop_last() =~= before.take(i as int));
        }
        let result = propagate_task_count(&mut plans[i], given, cfg, Ghost(fuel));
        if let Err(e) = result {
            proof {
                lemma_propagate_all_prefix(fuel, before, spread, *cfg, i + 1);
            }
            return Err(e);
        }
        proof {
            assert forall|j: int| 0 <= j < count && j != i implies (#[trigger] plans@[j])
                == mid[j] by {}
            assert(annotated_views(plans@).take(i + 1) =~= annotated_views(mid).take(
                i as int,
            ).push(plans@[i as int]@));
        }
    }
    proof {
        assert(before.take(count as int) =~= before);
        assert(annotated_views(plans@).take(count as int) =~= annotated_views(plans@));
    }
    Ok(())
}

/// Gives the children of an isolated union the tasks that they were cut into.
fn propagate_to_runs(
    plans: &mut Vec<AnnotatedPlan>,
    runs: &Vec<Vec<Slot>>,
    cfg: &PlannerConfig,
    Ghost(fuel): Ghost<nat>,
) -> (result: Result<(), AnnotationError>)
    requires
        max_height(annotated_views(old(plans)@)) <= fuel,
    ensures
        match (
            result,
            propagate_runs(fuel, annotated_views(old(plans)@), runs_view(runs@), *cfg),
        ) {
            (Ok(()), Ok(propagated)) => annotated_views(final(plans)@) == propagated,
            (Err(e), Err(expected)) => e == expected,
            _ => false,
        },
    decreases fuel, runs_weight(runs_view(runs@)) + 1,
{
    let ghost before = annotated_views(plans@);
    let ghost all = runs_view(runs@);
    proof {
        assert(all.take(0) =~= Seq::empty());
    }
    for t in 0..runs.len()
        invariant
            all == runs_view(runs@),
            before == annotated_views(old(plans)@),
            max_height(before) <= fuel,
            propagate_runs(fuel, before, all.take(t as int), *cfg) == Ok::<
                Seq<AnnotatedView>,
                AnnotationError,
            >(annotated_views(plans@)),
    {
        let run = &runs[t];
        let ghost mid = annotated_views(plans@);
        proof {
            assert(all.take(t + 1).drop_last() =~= all.take(t as int));
            assert(all.take(t + 1).last() == run@);
            lemma_propagate_runs_height(fuel, before, all.take(t as int), *cfg);
            assert(run@.take(0) =~= Seq::empty());
        }
        for i in 0..run.len()
            invariant
                t < runs@.len(),
                run@ == all[t as int],
                all == runs_view(runs@),
                all.take(t + 1).drop_last() == all.take(t as int),
                all.take(t + 1).last() == run@,
                before == annotated_views(old(plans)@),
                max_height(before) <= fuel,
                propagate_runs(fuel, before, all.take(t as int), *cfg) == Ok::<
                    Seq<AnnotatedView>,
                    AnnotationError,
                >(mid),
                mid.len() == before.len(),
                forall|j: int|
                    0 <= j < before.len() ==> height(#[trigger] mid[j]) == height(before[j]),
                propagate_run(fuel, mid, run@.take(i as int), *cfg) == Ok::<
                    Seq<AnnotatedView>,
                    AnnotationError,
                >(annotated_views(plans@)),
        {
            let (child, task_ctx) = run[i];
            let ghost current = annotated_views(plans@);
            let ghost current_plans = plans@;
            proof {
                assert(run@.take(i + 1).drop_last() =~= run@.take(i as int));
                lemma_propagate_run_height(fuel, mid, run@.take(i as int), *cfg);
            }
            if child < plans.len() {
                proof {
                    lemma_max_height(before, child as int);
                    assert(height(current[child as int]) == height(mid[child as int]));
                    assert(current[child as int] == plans@[child as int]@);
                }
                let result = propagate_task_count(
                    &mut plans[child],
                    TaskCountAnnotation::Maximum(task_ctx.task_count),
                    cfg,
                    Ghost(fuel),
                );
                if let Err(e) = result {
                    proof {
                        lemma_propagate_run_prefix(fuel, mid, run@, *cfg, i + 1);
                        lemma_propagate_runs_prefix(fuel, before, all, *cfg, t + 1);
                    }
                    return Err(e);
                }
                proof {
                    assert forall|j: int|
                        0 <= j < current_plans.len() && j != child implies (
                    #[trigger] plans@[j]) == current_plans[j] by {}
                    assert(annotated_views(plans@) =~= current.update(
                        child as int,
                        plans@[child as int]@,
                    ));
                }
            }
        }
        proof {
            assert(run@.take(run@.len() as int) =~= run@);
        }
    }
    proof {
        assert(all.take(all.len() as int) =~= all);
    }
    Ok(())
}

/// The outcome of annotating a plan.
#[derive(Debug)]
pub enum AnnotationOutcome {
    /// The plan is annotated.
    Done(AnnotatedPlan),
    /// The task count of the next stage must be found: that of the stage below is `previous`,
    /// and the data grew by `factor` on its way through it.
    NeedsTaskCount { previous: usize, factor: ScaleFactor },
    /// The plan cannot be annotated.
    Failed(AnnotationError),
}

/// Whether an outcome is how far the annotation has come.
pub open spec fn outcome_is(
    outcome: AnnotationOutcome,
    progress: AnnotationProgress<AnnotatedView>,
) -> bool {
    match (outcome, progress) {
        (AnnotationOutcome::Done(plan), AnnotationProgress::Done(view, _)) => plan@ == view,
        (
            AnnotationOutcome::NeedsTaskCount { previous, factor },
            AnnotationProgress::NeedsTaskCount { previous: p, factor: f },
        ) => previous == p && factor == f,
        (AnnotationOutcome::Failed(e), AnnotationProgress::Failed(expected)) => e == expected,
        _ => false,
    }
}

/// Annotates a plan: every node is given the number of tasks that its stage runs on, and the
/// places where data must cross the network are marked.
///
/// The task count of a stage above a network boundary follows from that of the stage below by
/// a scaling that is found elsewhere. `known` holds the ones that have been found so far, in the
/// order in which they are needed; when one is missing, the outcome says which.
pub fn annotate_plan(plan: &Plan, cfg: &PlannerConfig, known: &Vec<usize>) -> (outcome:
    AnnotationOutcome)
    ensures
        outcome_is(outcome, annotate(plan@, None, *cfg, true, known@, 0)),
{
    let (outcome, _) = annotate_node(plan, None, cfg, true, known, 0);
    outcome
}

fn settle(plan: AnnotatedPlan, cfg: &PlannerConfig) -> (result: Result<
    AnnotatedPlan,
    AnnotationError,
>)
    ensures
        match (result, settle_stage(plan@, *cfg)) {
            (Ok(settled), Ok(expected)) => settled@ == expected,
            (Err(e), Err(expected)) => e == expected,
            _ => false,
        },
{
    let mut plan = plan;
    let task_count = plan.task_count;
    let ghost fuel = height(plan@);
    match propagate_task_count(&mut plan, task_count, cfg, Ghost(fuel)) {
        Ok(()) => Ok(plan),
        Err(e) => Err(e),
    }
}

fn find_boundary(node: Node, parent: Option<Node>) -> (boundary: Option<PlanOrNetworkBoundary>)
    ensures
        match (boundary, boundary_above(node, parent)) {
            (Some(b), Some(expected)) => b@ == expected,
            (None, None) => true,
            _ => false,
        },
{
    match node.kind {
        NodeKind::Repartition => match node.partitioning {
            Partitioning::Hash(_) => Some(PlanOrNetworkBoundary::Shuffle),
            _ => None,
        },
        _ => match parent {
            Some(parent) => match parent.kind {
                NodeKind::CoalescePartitions | NodeKind::SortPreservingMerge => match node.kind {
                    NodeKind::Broadcast { .. } => Some(PlanOrNetworkBoundary::Broadcast),
                    _ => Some(PlanOrNetworkBoundary::Coalesce),
                },
                _ => None,
            },
            None => None,
        },
    }
}

fn find_task_count(node: Node, children: &Vec<AnnotatedPlan>, cfg: &PlannerConfig) -> (result:
    Option<TaskCountAnnotation>)
    ensures
        ({
            let views = annotated_views(children@);
            if cfg.children_isolator_unions && node.kind is Union && total_count(
                task_counts(views),
            ) > usize::MAX {
                result is None
            } else {
                result == Some(settle_task_count(node, views, *cfg))
            }
        }),
{
    let ghost views = annotated_views(children@);
    if cfg.children_isolator_unions && matches!(node.kind, NodeKind::Union) {
        let counts = collect_task_counts(children);
        if !sum_fits(&counts) {
            return None;
        }
        let mut total: usize = 0;
        for i in 0..counts.len()
            invariant
                total == total_count(counts@.take(i as int)),
                total_count(counts@) <= usize::MAX,
        {
            proof {
                lemma_total_grows(counts@, i + 1);
                assert(counts@.take(i + 1).drop_last() =~= counts@.take(i as int));
            }
            total = total + counts[i];
        }
        proof {
            assert(counts@.take(counts@.len() as int) =~= counts@);
        }
        return Some(TaskCountAnnotation::Desired(total));
    }
    if let NodeKind::HashJoin { mode: PartitionMode::CollectLeft, .. } = node.kind {
        if !cfg.broadcast_joins {
            return Some(TaskCountAnnotation::Maximum(1));
        }
    }
    let mut task_count = match node.estimation {
        Some(estimation) => estimation,
        None => TaskCountAnnotation::Desired(1),
    };
    let ghost own = task_count;
    for i in 0..children.len()
        invariant
            views == annotated_views(children@),
            task_count == merge_all(own, views.take(i as int)),
    {
        proof {
            assert(views.take(i + 1).drop_last() =~= views.take(i as int));
        }
        task_count = task_count.merge(children[i].task_count);
    }
    proof {
        assert(views.take(views.len() as int) =~= views);
    }
    Some(task_count)
}

fn annotate_node(
    plan: &Plan,
    parent: Option<Node>,
    cfg: &PlannerConfig,
    root: bool,
    known: &Vec<usize>,
    used: usize,
) -> (result: (AnnotationOutcome, usize))
    requires
        used <= known@.len(),
    ensures
        outcome_is(
            result.0,
            annotate(plan@, parent, *cfg, root, known@, used as nat),
        ),
        result.1 <= known@.len(),
        annotate(plan@, parent, *cfg, root, known@, used as nat) matches AnnotationProgress::Done(
            _,
            n,
        ) ==> result.1 == n,
    decreases plan,
{
    let node = plan.node;
    if plan.children.len() == 0 {
        let task_count = match node.estimation {
            Some(estimation) => estimation.limit(cfg.max_tasks),
            None => TaskCountAnnotation::Maximum(1),
        };
        let annotated = AnnotatedPlan {
            plan_or_nb: PlanOrNetworkBoundary::Plan {
                node,
                task_idx_map: clone_runs(&plan.task_idx_map),
            },
            children: Vec::new(),
            task_count,
        };
        proof {
            assert(annotated@.children =~= Seq::empty());
        }
        return (AnnotationOutcome::Done(annotated), used);
    }
    let mut children: Vec<AnnotatedPlan> = Vec::new();
    let mut taken: usize = used;
    let ghost inputs = plan@.children;
    proof {
        assert(inputs.take(0) =~= Seq::empty());
        assert(annotated_views(children@) =~= Seq::empty());
    }
    for i in 0..plan.children.len()
        invariant
            inputs == plan@.children,
            node == plan.node,
            taken <= known@.len(),
            annotate_children(inputs.take(i as int), node, *cfg, known@, used as nat)
                == AnnotationProgress::Done(annotated_views(children@), taken as nat),
    {
        proof {
            assert(inputs.take(i + 1).drop_last() =~= inputs.take(i as int));
            assert(inputs[i as int] == plan.children@[i as int]@);
        }
        let (outcome, now_taken) = annotate_node(
            &plan.children[i],
            Some(node),
            cfg,
            false,
            known,
            taken,
        );
        match outcome {
            AnnotationOutcome::Done(child) => {
                let ghost before = annotated_views(children@);
                children.push(child);
                taken = now_taken;
                proof {
                    assert(annotated_views(children@) =~= before.push(child@));
                }
            },
            AnnotationOutcome::NeedsTaskCount { previous, factor } => {
                proof {
                    lemma_annotate_children_prefix(inputs, node, *cfg, known@, used as nat, i + 1);
                }
                return (AnnotationOutcome::NeedsTaskCount { previous, factor }, taken);
            },
            AnnotationOutcome::Failed(e) => {
                proof {
                    lemma_annotate_children_prefix(inputs, node, *cfg, known@, used as nat, i + 1);
                }
                return (AnnotationOutcome::Failed(e), taken);
            },
        }
    }
    proof {
        assert(inputs.take(inputs.len() as int) =~= inputs);
    }
    let task_count = match find_task_count(node, &children, cfg) {
        Some(task_count) => task_count.limit(cfg.max_tasks),
        None => {
            return (AnnotationOutcome::Failed(AnnotationError::TooManyTasks), taken);
        },
    };
    let ghost views = annotated_views(children@);
    let annotated = AnnotatedPlan {
        plan_or_nb: PlanOrNetworkBoundary::Plan {
            node,
            task_idx_map: clone_runs(&plan.task_idx_map),
        },
        children,
        task_count,
    };
    proof {
        lemma_children_view(annotated);
        assert(annotated@ == annotate_parent(plan@, views, *cfg));
    }
    match find_boundary(node, parent) {
        Some(boundary) => {
            let below = match settle(annotated, cfg) {
                Ok(below) => below,
                Err(e) => {
                    return (AnnotationOutcome::Failed(e), taken);
                },
            };
            let ghost below_view = below@;
            if let PlanOrNetworkBoundary::Coalesce = boundary {
                let above = AnnotatedPlan {
                    plan_or_nb: boundary,
                    children: vec![below],
                    task_count: TaskCountAnnotation::Maximum(1),
                };
                proof {
                    assert(above@.children =~= seq![below_view]);
                }
                return (AnnotationOutcome::Done(above), taken);
            }
            if taken < known.len() {
                let above = AnnotatedPlan {
                    plan_or_nb: boundary,
                    children: vec![below],
                    task_count: TaskCountAnnotation::Desired(known[taken]),
                };
                proof {
                    assert(above@.children =~= seq![below_view]);
                }
                return (AnnotationOutcome::Done(above), taken + 1);
            }
            let factor = calculate_scale_factor(&below);
            (AnnotationOutcome::NeedsTaskCount { previous: task_count.as_usize(), factor }, taken)
        },
        None => if root {
            match settle(annotated, cfg) {
                Ok(settled) => (AnnotationOutcome::Done(settled), taken),
                Err(e) => (AnnotationOutcome::Failed(e), taken),
            }
        } else {
            (AnnotationOutcome::Done(annotated), taken)
        },
    }
}

/// When the first children cannot be annotated yet, neither can all of them.
proof fn lemma_annotate_children_prefix(
    plans: Seq<PlanView>,
    parent: Node,
    cfg: PlannerConfig,
    known: Seq<usize>,
    used: nat,
    i: int,
)
    requires
        0 <= i <= plans.len(),
        !(annotate_children(plans.take(i), parent, cfg, known, used) is Done),
    ensures
        annotate_children(plans, parent, cfg, known, used) == annotate_children(
            plans.take(i),
            parent,
            cfg,
            known,
            used,
        ),
    decreases plans.len() - i,
{
    if i == plans.len() {
        assert(plans.take(i) =~= plans);
    } else {
        assert(plans.take(i + 1).drop_last() =~= plans.take(i));
        lemma_annotate_children_prefix(plans, parent, cfg, known, used, i + 1);
    }
}

} // verus!
