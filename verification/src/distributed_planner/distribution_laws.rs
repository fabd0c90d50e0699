use crate::distributed_planner::annotation_laws::{
    annotated_shape, annotated_shapes, annotation_keeps_the_plan, plan_shape, Shape,
};
use crate::distributed_planner::batch_coalescing_below_network_boundaries::{
    all_coalesced, coalesced, crosses_network, gathered, gathers,
};
use crate::distributed_planner::distributed_physical_optimizer_rule::{
    all_distributed, all_stage_nums, boundary_input, boundary_kind, distributed,
    holds_scalar_subquery, is_optimized, prepared, stage_nums, stages_are_numbered_in_order,
    OptimizerConfig, OptimizerOutcome,
};
use crate::distributed_planner::plan::{Node, NodeKind, Partitioning, PlanView};
use crate::distributed_planner::plan_annotator::{
    annotate, annotate_children, annotate_parent, height, isolate_children, propagate,
    propagate_all, propagate_run, propagate_runs, runs_weight, spread_count, AnnotatedView,
    AnnotationProgress, PlanOrNetworkBoundaryView, PlannerConfig, Spread,
};
use crate::distributed_planner::staged_plan::{Boundary, DistributeError, StagedView, StepView};
use crate::distributed_planner::task_estimator::{annotation_count, TaskCountAnnotation};
use crate::execution_plans::children_isolator_union::Slot;
use crate::execution_plans::network_shuffle::{respread, respread_first, ShuffleError};
use crate::protobuf::distributed_codec::NetworkKind;
use vstd::prelude::*;

verus! {

/// Whether data can cross the network from a plan at a place that is marked for it: a shuffle stands
/// over a node that spreads rows by a hash, and a broadcast over one that keeps its rows.
pub open spec fn can_cross(boundary: PlanOrNetworkBoundaryView, input: AnnotatedView) -> bool {
    match boundary {
        PlanOrNetworkBoundaryView::Shuffle => input.plan_or_nb matches PlanOrNetworkBoundaryView::Plan {
            node,
            ..
        } && node.kind is Repartition && node.partitioning is Hash,
        PlanOrNetworkBoundaryView::Broadcast => input.plan_or_nb matches PlanOrNetworkBoundaryView::Plan {
            node,
            ..
        } && node.kind is Broadcast,
        _ => true,
    }
}

/// Whether a node passes on the rows of a single plan, and in a way that the network depends on.
pub open spec fn has_one_input(node: Node) -> bool {
    node.kind is Repartition || node.kind is Broadcast
}

/// Whether all such nodes of a plan do have one plan below them.
pub open spec fn inputs_are_whole(plan: PlanView) -> bool
    decreases plan,
{
    &&& has_one_input(plan.node) ==> plan.children.len() == 1
    &&& forall|i: int|
        0 <= i < plan.children.len() ==> inputs_are_whole(#[trigger] plan.children[i])
}

/// Whether there is exactly one plan below every place where data crosses the network, and one that it
/// can cross from. If `whole`, the nodes that the network depends on have one plan below them.
pub open spec fn boundaries_have_inputs(plan: AnnotatedView, whole: bool) -> bool
    decreases plan,
{
    &&& !(plan.plan_or_nb is Plan) ==> plan.children.len() == 1 && can_cross(
        plan.plan_or_nb,
        plan.children[0],
    )
    &&& whole ==> (plan.plan_or_nb matches PlanOrNetworkBoundaryView::Plan { node, .. } ==> (
    has_one_input(node) ==> plan.children.len() == 1))
    &&& forall|i: int|
        0 <= i < plan.children.len() ==> boundaries_have_inputs(
            #[trigger] plan.children[i],
            whole,
        )
}

/// Whether that holds of all the given plans.
pub open spec fn all_have_inputs(plans: Seq<AnnotatedView>, whole: bool) -> bool {
    forall|i: int| 0 <= i < plans.len() ==> boundaries_have_inputs(#[trigger] plans[i], whole)
}

/// Whether a plan has the same node on top as another, unless that is a union, and as many children.
spec fn keeps_top(before: AnnotatedView, after: AnnotatedView) -> bool {
    &&& before.children.len() == after.children.len()
    &&& (before.plan_or_nb matches PlanOrNetworkBoundaryView::Plan { node, .. } && node.kind is Union)
        || before.plan_or_nb == after.plan_or_nb
}

spec fn all_keep_top(before: Seq<AnnotatedView>, after: Seq<AnnotatedView>) -> bool {
    &&& before.len() == after.len()
    &&& forall|i: int| 0 <= i < before.len() ==> keeps_top(before[i], #[trigger] after[i])
}

proof fn lemma_propagate_inputs(
    fuel: nat,
    plan: AnnotatedView,
    task_count: TaskCountAnnotation,
    cfg: PlannerConfig,
    whole: bool,
)
    requires
        boundaries_have_inputs(plan, whole),
    ensures
        propagate(fuel, plan, task_count, cfg) matches Ok(p) ==> boundaries_have_inputs(p, whole)
            && keeps_top(plan, p),
    decreases fuel, 0nat,
{
    if fuel > 0 {
        let less = (fuel - 1) as nat;
        match plan.plan_or_nb {
            PlanOrNetworkBoundaryView::Broadcast => {
                if let TaskCountAnnotation::Maximum(max) = task_count {
                    lemma_propagate_all_inputs(less, plan.children, Spread::Capped(max), cfg, whole);
                }
            },
            PlanOrNetworkBoundaryView::Plan { node, .. } => {
                if cfg.children_isolator_unions && node.kind is Union {
                    if let Ok((runs, partition_count)) = isolate_children(
                        plan.children,
                        annotation_count(task_count),
                    ) {
                        lemma_propagate_runs_inputs(less, plan.children, runs, cfg, whole);
                    }
                } else {
                    lemma_propagate_all_inputs(
                        less,
                        plan.children,
                        Spread::Same(task_count),
                        cfg,
                        whole,
                    );
                }
            },
            _ => {},
        }
    }
}

proof fn lemma_propagate_all_inputs(
    fuel: nat,
    plans: Seq<AnnotatedView>,
    spread: Spread,
    cfg: PlannerConfig,
    whole: bool,
)
    requires
        all_have_inputs(plans, whole),
    ensures
        propagate_all(fuel, plans, spread, cfg) matches Ok(ps) ==> all_keep_top(plans, ps)
            && all_have_inputs(ps, whole),
    decreases fuel, plans.len() + 1,
{
    if plans.len() > 0 {
        let front = plans.drop_last();
        assert forall|i: int| 0 <= i < front.len() implies boundaries_have_inputs(
            #[trigger] front[i],
            whole,
        ) by {
            assert(front[i] == plans[i]);
        }
        lemma_propagate_all_inputs(fuel, front, spread, cfg, whole);
        assert(plans.last() == plans[plans.len() - 1]);
        lemma_propagate_inputs(
            fuel,
            plans.last(),
            spread_count(spread, plans.last()),
            cfg,
            whole,
        );
    }
}

proof fn lemma_propagate_run_inputs(
    fuel: nat,
    plans: Seq<AnnotatedView>,
    run: Seq<Slot>,
    cfg: PlannerConfig,
    whole: bool,
)
    requires
        all_have_inputs(plans, whole),
    ensures
        propagate_run(fuel, plans, run, cfg) matches Ok(ps) ==> all_keep_top(plans, ps)
            && all_have_inputs(ps, whole),
    decreases fuel, run.len() + 1,
{
    if run.len() > 0 {
        lemma_propagate_run_inputs(fuel, plans, run.drop_last(), cfg, whole);
        if let Ok(front) = propagate_run(fuel, plans, run.drop_last(), cfg) {
            let (child, task_ctx) = run.last();
            if child < front.len() {
                lemma_propagate_inputs(
                    fuel,
                    front[child as int],
                    TaskCountAnnotation::Maximum(task_ctx.task_count),
                    cfg,
                    whole,
                );
            }
        }
    }
}

proof fn lemma_propagate_runs_inputs(
    fuel: nat,
    plans: Seq<AnnotatedView>,
    runs: Seq<Seq<Slot>>,
    cfg: PlannerConfig,
    whole: bool,
)
    requires
        all_have_inputs(plans, whole),
    ensures
        propagate_runs(fuel, plans, runs, cfg) matches Ok(ps) ==> all_keep_top(plans, ps)
            && all_have_inputs(ps, whole),
    decreases fuel, runs_weight(runs),
{
    if runs.len() > 0 {
        lemma_propagate_runs_inputs(fuel, plans, runs.drop_last(), cfg, whole);
        if let Ok(front) = propagate_runs(fuel, plans, runs.drop_last(), cfg) {
            lemma_propagate_run_inputs(fuel, front, runs.last(), cfg, whole);
        }
    }
}

proof fn lemma_annotate_inputs(
    plan: PlanView,
    parent: Option<Node>,
    cfg: PlannerConfig,
    root: bool,
    known: Seq<usize>,
    used: nat,
    whole: bool,
)
    requires
        whole ==> inputs_are_whole(plan),
    ensures
        annotate(plan, parent, cfg, root, known, used) matches AnnotationProgress::Done(a, _)
            ==> boundaries_have_inputs(a, whole),
    decreases plan,
{
    if plan.children.len() > 0 {
        lemma_annotate_children_inputs(plan.children, plan.node, cfg, known, used, whole);
        if let AnnotationProgress::Done(children, taken) = annotate_children(
            plan.children,
            plan.node,
            cfg,
            known,
            used,
        ) {
            let annotated = annotate_parent(plan, children, cfg);
            assert(boundaries_have_inputs(annotated, whole));
            lemma_propagate_inputs(height(annotated), annotated, annotated.task_count, cfg, whole);
        }
    }
}

proof fn lemma_annotate_children_inputs(
    plans: Seq<PlanView>,
    parent: Node,
    cfg: PlannerConfig,
    known: Seq<usize>,
    used: nat,
    whole: bool,
)
    requires
        whole ==> forall|i: int| 0 <= i < plans.len() ==> inputs_are_whole(#[trigger] plans[i]),
    ensures
        annotate_children(plans, parent, cfg, known, used) matches AnnotationProgress::Done(a, _)
            ==> all_have_inputs(a, whole) && a.len() == plans.len(),
    decreases plans,
{
    if plans.len() > 0 {
        if whole {
            assert forall|i: int| 0 <= i < plans.drop_last().len() implies inputs_are_whole(
                #[trigger] plans.drop_last()[i],
            ) by {
                assert(plans.drop_last()[i] == plans[i]);
            }
            assert(inputs_are_whole(plans[plans.len() - 1]));
        }
        lemma_annotate_children_inputs(plans.drop_last(), parent, cfg, known, used, whole);
        if let AnnotationProgress::Done(front, taken) = annotate_children(
            plans.drop_last(),
            parent,
            cfg,
            known,
            used,
        ) {
            lemma_annotate_inputs(plans.last(), Some(parent), cfg, false, known, taken, whole);
        }
    }
}

/// Whether cutting a plan into stages can fail only because there is too much to count.
pub open spec fn is_limit(error: DistributeError) -> bool {
    error == DistributeError::TooManyStages || error == DistributeError::Shuffle(
        ShuffleError::TooManyPartitions,
    )
}

/// A node of the plan stays on top of what is cut into stages below it.
proof fn lemma_node_on_top(plan: AnnotatedView, next: usize)
    requires
        plan.plan_or_nb is Plan,
    ensures
        distributed(plan, next) matches Ok((staged, _)) ==> {
            &&& staged.children.len() == plan.children.len()
            &&& staged.step matches StepView::Node { node, .. } && plan.plan_or_nb matches PlanOrNetworkBoundaryView::Plan {
                node: planned,
                ..
            } && node == planned
        },
{
    lemma_distribution_shapes(plan.children, next);
}

proof fn lemma_distributes(plan: AnnotatedView, next: usize)
    requires
        boundaries_have_inputs(plan, true),
    ensures
        distributed(plan, next) matches Err(e) ==> is_limit(e),
    decreases plan, 0int,
{
    lemma_all_distribute(plan.children, next);
    if !(plan.plan_or_nb is Plan) {
        let child = plan.children[0];
        assert(boundaries_have_inputs(child, true));
        assert(plan.children.drop_last() =~= Seq::empty());
        assert(plan.children.last() == child);
        assert(all_distributed(plan.children.drop_last(), next) == Ok::<_, DistributeError>(
            (Seq::<StagedView>::empty(), next),
        ));
        if child.plan_or_nb is Plan {
            lemma_node_on_top(child, next);
        }
    }
}

proof fn lemma_all_distribute(plans: Seq<AnnotatedView>, next: usize)
    requires
        all_have_inputs(plans, true),
    ensures
        match all_distributed(plans, next) {
            Ok((staged, _)) => staged.len() == plans.len(),
            Err(e) => is_limit(e),
        },
    decreases plans, 1int,
{
    if plans.len() > 0 {
        let front = plans.drop_last();
        assert forall|i: int| 0 <= i < front.len() implies boundaries_have_inputs(
            #[trigger] front[i],
            true,
        ) by {
            assert(front[i] == plans[i]);
        }
        lemma_all_distribute(front, next);
        if let Ok((before, mid)) = all_distributed(front, next) {
            assert(plans.last() == plans[plans.len() - 1]);
            lemma_distributes(plans.last(), mid);
        }
    }
}

/// A plan that could be annotated can be cut into stages, unless there are more of them, or more
/// partitions, than can be counted.
pub proof fn annotated_plans_can_be_distributed(
    plan: PlanView,
    cfg: PlannerConfig,
    known: Seq<usize>,
    next: usize,
)
    requires
        inputs_are_whole(plan),
    ensures
        annotate(plan, None, cfg, true, known, 0) matches AnnotationProgress::Done(a, _) ==> (
        distributed(a, next) matches Err(e) ==> is_limit(e)),
{
    lemma_annotate_inputs(plan, None, cfg, true, known, 0, true);
    if let AnnotationProgress::Done(a, _) = annotate(plan, None, cfg, true, known, 0) {
        lemma_distributes(a, next);
    }
}

/// What a place where data crosses the network stands over, past the node that gathers batches for it.
pub open spec fn below_gathering(input: StagedView) -> StagedView {
    if input.step is CoalesceBatches && input.children.len() == 1 {
        input.children[0]
    } else {
        input
    }
}

/// Whether the tasks above a place where data crosses the network can read from what it stands over: a
/// shuffle from a node that spreads the rows over as many partitions as all of them have together, and
/// a broadcast from a node that keeps its rows for all of them.
pub open spec fn can_be_read(boundary: Boundary, input: StagedView) -> bool {
    match boundary.kind {
        NetworkKind::Shuffle => {
            &&& boundary.partitioning is Hash
            &&& input.children.len() == 1
            &&& input.step matches StepView::Node { node, .. } && node.kind is Repartition
                && node.partitioning is Hash && node.partitioning.count()
                == boundary.partitioning.count() * boundary.task_count
        },
        NetworkKind::Broadcast => {
            &&& input.children.len() == 1
            &&& input.step matches StepView::Node { node, .. } && node.kind
                == (NodeKind::Broadcast { consumer_task_count: boundary.task_count })
        },
        NetworkKind::Coalesce => true,
    }
}

/// Whether that holds of every place in a plan where data crosses the network.
pub open spec fn boundaries_can_be_read(plan: StagedView) -> bool
    decreases plan,
{
    &&& plan.step matches StepView::Boundary(boundary) ==> plan.children.len() == 1 && can_be_read(
        boundary,
        below_gathering(plan.children[0]),
    )
    &&& forall|i: int|
        0 <= i < plan.children.len() ==> boundaries_can_be_read(#[trigger] plan.children[i])
}

proof fn lemma_distributed_can_be_read(plan: AnnotatedView, next: usize)
    requires
        boundaries_have_inputs(plan, false),
    ensures
        distributed(plan, next) matches Ok((staged, _)) ==> boundaries_can_be_read(staged),
    decreases plan, 0int,
{
    lemma_all_can_be_read(plan.children, next);
    if let Ok((children, mid)) = all_distributed(plan.children, next) {
        if !(plan.plan_or_nb is Plan) {
            let child = plan.children[0];
            let task_count = annotation_count(plan.task_count);
            let kind = boundary_kind(plan.plan_or_nb);
            assert(boundaries_have_inputs(child, false));
            assert(plan.children.drop_last() =~= Seq::empty());
            assert(plan.children.last() == child);
            assert(all_distributed(plan.children.drop_last(), next) == Ok::<_, DistributeError>(
                (Seq::<StagedView>::empty(), next),
            ));
            if child.plan_or_nb is Plan {
                lemma_node_on_top(child, next);
            }
            assert(boundaries_can_be_read(children[0]));
            if let Ok(input) = boundary_input(kind, children[0], task_count) {
                if !(kind is Coalesce) {
                    assert(input.children == children[0].children);
                    assert forall|i: int| 0 <= i < input.children.len() implies boundaries_can_be_read(
                        #[trigger] input.children[i],
                    ) by {
                        assert(boundaries_can_be_read(children[0].children[i]));
                    }
                }
                assert(boundaries_can_be_read(input));
            }
        }
    }
}

proof fn lemma_all_can_be_read(plans: Seq<AnnotatedView>, next: usize)
    requires
        all_have_inputs(plans, false),
    ensures
        all_distributed(plans, next) matches Ok((staged, _)) ==> staged.len() == plans.len()
            && forall|i: int|
            0 <= i < staged.len() ==> boundaries_can_be_read(#[trigger] staged[i]),
    decreases plans, 1int,
{
    if plans.len() > 0 {
        let front = plans.drop_last();
        assert forall|i: int| 0 <= i < front.len() implies boundaries_have_inputs(
            #[trigger] front[i],
            false,
        ) by {
            assert(front[i] == plans[i]);
        }
        lemma_all_can_be_read(front, next);
        if let Ok((before, mid)) = all_distributed(front, next) {
            assert(plans.last() == plans[plans.len() - 1]);
            lemma_distributed_can_be_read(plans.last(), mid);
        }
    }
}

proof fn lemma_coalesced_can_be_read(plan: StagedView, size: usize)
    requires
        boundaries_can_be_read(plan),
    ensures
        coalesced(plan, size) matches Ok(r) ==> boundaries_can_be_read(r) && (!crosses_network(
            plan.step,
        ) ==> r.step == plan.step && r.children.len() == plan.children.len()),
    decreases plan, 0int,
{
    lemma_all_coalesced_can_be_read(plan.children, size);
    if let Ok(children) = all_coalesced(plan.children, size) {
        if let Ok(r) = coalesced(plan, size) {
            if crosses_network(plan.step) {
                let input = gathered(children[0], size);
                assert(r.children[0] == input);
                assert(boundaries_can_be_read(children[0]));
                lemma_gathered_can_be_read(children[0], size);
                if let StepView::Boundary(boundary) = plan.step {
                    assert(boundaries_can_be_read(plan.children[0]));
                    if !(boundary.kind is Coalesce) {
                        lemma_gathers_over(plan.children[0], children[0], boundary, size);
                    }
                }
            }
        }
    }
}

/// A node that data can be read from stays below the node that gathers batches for it.
proof fn lemma_gathers_over(
    before: StagedView,
    after: StagedView,
    boundary: Boundary,
    size: usize,
)
    requires
        !(boundary.kind is Coalesce),
        can_be_read(boundary, below_gathering(before)),
        boundaries_can_be_read(before),
        coalesced(before, size) == Ok::<_, DistributeError>(after),
    ensures
        can_be_read(boundary, below_gathering(gathered(after, size))),
    decreases before, 1int,
{
    lemma_coalesced_can_be_read(before, size);
    let below = below_gathering(before);
    assert(!crosses_network(below.step));
    if before.step is CoalesceBatches && before.children.len() == 1 {
        let inner = before.children[0];
        assert(boundaries_can_be_read(inner));
        lemma_coalesced_can_be_read(inner, size);
        assert(before.children.drop_last() =~= Seq::empty());
        assert(before.children.last() == inner);
        assert(all_coalesced(before.children.drop_last(), size) == Ok::<_, DistributeError>(
            Seq::<StagedView>::empty(),
        ));
        assert(after.children[0] == coalesced(inner, size)->Ok_0);
    } else {
        assert(gathers(after.step) is None);
    }
}

proof fn lemma_gathered_can_be_read(input: StagedView, size: usize)
    requires
        boundaries_can_be_read(input),
    ensures
        boundaries_can_be_read(gathered(input, size)),
{
    match gathers(input.step) {
        Some((target, fetch)) => {},
        None => {
            assert(gathered(input, size).children =~= seq![input]);
        },
    }
}

proof fn lemma_all_coalesced_can_be_read(plans: Seq<StagedView>, size: usize)
    requires
        forall|i: int| 0 <= i < plans.len() ==> boundaries_can_be_read(#[trigger] plans[i]),
    ensures
        all_coalesced(plans, size) matches Ok(r) ==> r.len() == plans.len() && forall|i: int|
            0 <= i < r.len() ==> boundaries_can_be_read(#[trigger] r[i]) && coalesced(
                plans[i],
                size,
            ) == Ok::<_, DistributeError>(r[i]),
    decreases plans, 2int,
{
    if plans.len() > 0 {
        let front = plans.drop_last();
        assert forall|i: int| 0 <= i < front.len() implies boundaries_can_be_read(
            #[trigger] front[i],
        ) by {
            assert(front[i] == plans[i]);
        }
        lemma_all_coalesced_can_be_read(front, size);
        assert(plans.last() == plans[plans.len() - 1]);
        lemma_coalesced_can_be_read(plans.last(), size);
        if let Ok(r) = all_coalesced(plans, size) {
            let before = all_coalesced(front, size)->Ok_0;
            assert forall|i: int| 0 <= i < r.len() implies boundaries_can_be_read(#[trigger] r[i])
                && coalesced(plans[i], size) == Ok::<_, DistributeError>(r[i]) by {
                if i < front.len() {
                    assert(r[i] == before[i]);
                    assert(front[i] == plans[i]);
                }
            }
        }
    }
}

/// A plan that the rule has cut into stages can be executed: wherever data crosses the network, the
/// tasks above can read from what is below, also where batches are gathered in between.
pub proof fn optimized_plans_can_be_read(
    original: PlanView,
    cfg: OptimizerConfig,
    known: Seq<usize>,
    outcome: OptimizerOutcome,
)
    requires
        is_optimized(original, cfg, known, outcome),
    ensures
        outcome matches OptimizerOutcome::Distributed(plan) ==> boundaries_can_be_read(plan@),
{
    if let OptimizerOutcome::Distributed(plan) = outcome {
        let planned = prepared(original, cfg.planner);
        lemma_annotate_inputs(planned, None, cfg.planner, true, known, 0, false);
        if let AnnotationProgress::Done(a, _) = annotate(
            planned,
            None,
            cfg.planner,
            true,
            known,
            0,
        ) {
            lemma_distributed_can_be_read(a, 1);
            if let Ok((staged, _)) = distributed(a, 1) {
                lemma_coalesced_can_be_read(staged, cfg.batches.shuffle_batch_size);
            }
        }
    }
}

/// The nodes of a plan that is cut into stages and how they hang together, without what was added.
pub open spec fn staged_shape(plan: StagedView) -> Shape
    decreases plan,
{
    match plan.step {
        StepView::Node { node, .. } => Shape {
            id: node.id,
            children: staged_shapes(plan.children),
        },
        _ => if plan.children.len() == 1 {
            staged_shape(plan.children[0])
        } else {
            Shape { id: None, children: staged_shapes(plan.children) }
        },
    }
}

/// The nodes of several plans.
pub open spec fn staged_shapes(plans: Seq<StagedView>) -> Seq<Shape>
    decreases plans,
{
    if plans.len() == 0 {
        Seq::empty()
    } else {
        staged_shapes(plans.drop_last()).push(staged_shape(plans.last()))
    }
}

proof fn lemma_respread_keeps_shape(plan: StagedView, task_count: usize)
    ensures
        respread(plan, task_count) matches Ok(Some(p)) ==> staged_shape(p) == staged_shape(plan),
    decreases plan, 0int,
{
    lemma_respread_first_keeps_shapes(plan.children, task_count);
}

proof fn lemma_respread_first_keeps_shapes(plans: Seq<StagedView>, task_count: usize)
    ensures
        respread_first(plans, task_count) matches Ok(Some(ps)) ==> {
            &&& ps.len() == plans.len()
            &&& staged_shapes(ps) == staged_shapes(plans)
            &&& forall|i: int|
                0 <= i < ps.len() ==> staged_shape(#[trigger] ps[i]) == staged_shape(plans[i])
        },
    decreases plans, 1int,
{
    if plans.len() > 0 {
        let front = plans.drop_last();
        lemma_respread_first_keeps_shapes(front, task_count);
        lemma_respread_keeps_shape(plans.last(), task_count);
        if let Ok(Some(ps)) = respread_first(plans, task_count) {
            match respread_first(front, task_count) {
                Ok(Some(before)) => {
                    assert(ps.drop_last() =~= before);
                    assert forall|i: int| 0 <= i < ps.len() implies staged_shape(#[trigger] ps[i])
                        == staged_shape(plans[i]) by {
                        if i < front.len() {
                            assert(ps[i] == before[i] && plans[i] == front[i]);
                        }
                    }
                },
                _ => {
                    assert(ps.drop_last() =~= front);
                },
            }
        }
    }
}

proof fn lemma_input_keeps_shape(kind: NetworkKind, child: StagedView, task_count: usize)
    ensures
        boundary_input(kind, child, task_count) matches Ok(input) ==> staged_shape(input)
            == staged_shape(child),
{
    lemma_respread_keeps_shape(child, task_count);
}

proof fn lemma_distribution_shape(plan: AnnotatedView, next: usize)
    ensures
        distributed(plan, next) matches Ok((staged, _)) ==> staged_shape(staged)
            == annotated_shape(plan),
    decreases plan, 0int,
{
    lemma_distribution_shapes(plan.children, next);
    if let Ok((children, mid)) = all_distributed(plan.children, next) {
        if children.len() == 1 {
            assert(plan.children.len() == 1);
            assert(staged_shape(children[0]) == annotated_shape(plan.children[0]));
            if !(plan.plan_or_nb is Plan) {
                lemma_input_keeps_shape(
                    boundary_kind(plan.plan_or_nb),
                    children[0],
                    annotation_count(plan.task_count),
                );
            }
        }
    }
}

proof fn lemma_distribution_shapes(plans: Seq<AnnotatedView>, next: usize)
    ensures
        all_distributed(plans, next) matches Ok((staged, _)) ==> staged.len() == plans.len()
            && staged_shapes(staged) == annotated_shapes(plans) && forall|i: int|
            0 <= i < plans.len() ==> staged_shape(#[trigger] staged[i]) == annotated_shape(
                plans[i],
            ),
    decreases plans, 1int,
{
    if plans.len() > 0 {
        lemma_distribution_shapes(plans.drop_last(), next);
        if let Ok((before, mid)) = all_distributed(plans.drop_last(), next) {
            lemma_distribution_shape(plans.last(), mid);
            if let Ok((last, after)) = distributed(plans.last(), mid) {
                let staged = before.push(last);
                assert(staged.drop_last() =~= before);
                assert forall|i: int| 0 <= i < plans.len() implies staged_shape(
                    #[trigger] staged[i],
                ) == annotated_shape(plans[i]) by {
                    if i < plans.len() - 1 {
                        assert(staged_shape(before[i]) == annotated_shape(plans.drop_last()[i]));
                    }
                }
            }
        }
    }
}

/// Cutting a plan into stages adds the places where data crosses the network and moves nothing:
/// without them, the stages hold the same nodes in the same places.
pub proof fn distribution_keeps_the_plan(
    plan: PlanView,
    cfg: PlannerConfig,
    known: Seq<usize>,
    next: usize,
)
    ensures
        annotate(plan, None, cfg, true, known, 0) matches AnnotationProgress::Done(a, _) ==> (
        distributed(a, next) matches Ok((staged, _)) ==> staged_shape(staged) == plan_shape(plan)),
{
    annotation_keeps_the_plan(plan, None, cfg, true, known, 0);
    if let AnnotationProgress::Done(a, _) = annotate(plan, None, cfg, true, known, 0) {
        lemma_distribution_shape(a, next);
    }
}

/// A node of a plan as it stands right below a place where rows cross the network. For a shuffle it
/// spreads the rows over as many partitions as all the tasks above have together, and for a broadcast it
/// keeps them for all of those tasks.
pub open spec fn node_below(node: Node, crossing: Option<(NetworkKind, usize)>) -> Node {
    match crossing {
        Some((NetworkKind::Shuffle, tasks)) => Node {
            partitioning: Partitioning::Hash((node.partitioning.count() * tasks) as usize),
            ..node
        },
        Some((NetworkKind::Broadcast, tasks)) => Node {
            kind: NodeKind::Broadcast { consumer_task_count: tasks },
            ..node
        },
        _ => node,
    }
}

/// Whether a plan in stages is laid out as an annotated plan says. Each node is in its place and as it
/// was, unless rows cross the network right above it (`crossing` tells how, and to how many tasks). A leaf
/// knows the number of its tasks. Rows cross where that is marked, in the way that is marked, from the
/// tasks below to the tasks above, unless there is one task on both sides.
pub open spec fn is_laid_out(
    plan: AnnotatedView,
    staged: StagedView,
    crossing: Option<(NetworkKind, usize)>,
) -> bool
    decreases plan,
{
    let tasks = annotation_count(plan.task_count);
    match plan.plan_or_nb {
        PlanOrNetworkBoundaryView::Plan { node, task_idx_map } => {
            &&& staged.step == (StepView::Node {
                node: node_below(node, crossing),
                task_idx_map,
                leaf_tasks: if plan.children.len() == 0 {
                    Some(tasks)
                } else {
                    None
                },
            })
            &&& staged.children.len() == plan.children.len()
            &&& forall|i: int|
                0 <= i < plan.children.len() ==> is_laid_out(
                    #[trigger] plan.children[i],
                    staged.children[i],
                    None,
                )
        },
        mark => plan.children.len() == 1 && {
            let input_tasks = annotation_count(plan.children[0].task_count);
            let kind = match mark {
                PlanOrNetworkBoundaryView::Shuffle => NetworkKind::Shuffle,
                PlanOrNetworkBoundaryView::Broadcast => NetworkKind::Broadcast,
                _ => NetworkKind::Coalesce,
            };
            if tasks == 1 && input_tasks == 1 {
                is_laid_out(plan.children[0], staged, None)
            } else {
                &&& staged.step matches StepView::Boundary(boundary) && boundary.kind == kind
                    && boundary.task_count == tasks && boundary.input_task_count == input_tasks
                &&& staged.children.len() == 1
                &&& is_laid_out(
                    plan.children[0],
                    staged.children[0],
                    if kind is Coalesce {
                        None
                    } else {
                        Some((kind, tasks))
                    },
                )
            }
        },
    }
}

/// A plan that was annotated is cut into stages as it was annotated: every node with its tasks, and every
/// place where rows cross the network with the tasks on both of its sides.
pub proof fn stages_are_laid_out_as_annotated(plan: AnnotatedView, next: usize)
    requires
        boundaries_have_inputs(plan, false),
    ensures
        distributed(plan, next) matches Ok((staged, _)) ==> is_laid_out(plan, staged, None),
    decreases plan, 0int,
{
    lemma_all_laid_out(plan.children, next);
    if let Ok((children, mid)) = all_distributed(plan.children, next) {
        if !(plan.plan_or_nb is Plan) {
            let child = plan.children[0];
            let tasks = annotation_count(plan.task_count);
            let kind = boundary_kind(plan.plan_or_nb);
            assert(is_laid_out(child, children[0], None));
            if child.plan_or_nb is Plan && !(kind is Coalesce) {
                if let Ok(input) = boundary_input(kind, children[0], tasks) {
                    assert(input.children == children[0].children);
                    assert(is_laid_out(child, input, Some((kind, tasks))));
                }
            }
        }
    }
}

proof fn lemma_all_laid_out(plans: Seq<AnnotatedView>, next: usize)
    requires
        all_have_inputs(plans, false),
    ensures
        all_distributed(plans, next) matches Ok((staged, _)) ==> staged.len() == plans.len()
            && forall|i: int|
            0 <= i < plans.len() ==> is_laid_out(#[trigger] plans[i], staged[i], None),
    decreases plans, 1int,
{
    if plans.len() > 0 {
        let front = plans.drop_last();
        assert forall|i: int| 0 <= i < front.len() implies boundaries_have_inputs(
            #[trigger] front[i],
            false,
        ) by {
            assert(front[i] == plans[i]);
        }
        lemma_all_laid_out(front, next);
        if let Ok((before, mid)) = all_distributed(front, next) {
            assert(plans.last() == plans[plans.len() - 1]);
            stages_are_laid_out_as_annotated(plans.last(), mid);
            if let Ok((staged, _)) = all_distributed(plans, next) {
                assert forall|i: int| 0 <= i < plans.len() implies is_laid_out(
                    #[trigger] plans[i],
                    staged[i],
                    None,
                ) by {
                    if i < front.len() {
                        assert(front[i] == plans[i]);
                        assert(before[i] == staged[i]);
                    }
                }
            }
        }
    }
}

/// Whatever plan is annotated, its stages are laid out as it was annotated.
pub proof fn annotated_plans_are_laid_out(
    plan: PlanView,
    cfg: PlannerConfig,
    known: Seq<usize>,
    next: usize,
)
    ensures
        annotate(plan, None, cfg, true, known, 0) matches AnnotationProgress::Done(a, _) ==> (
        distributed(a, next) matches Ok((staged, _)) ==> is_laid_out(a, staged, None)),
{
    lemma_annotate_inputs(plan, None, cfg, true, known, 0, false);
    if let AnnotationProgress::Done(a, _) = annotate(plan, None, cfg, true, known, 0) {
        stages_are_laid_out_as_annotated(a, next);
    }
}

/// The node at the end of a way down a plan, if there is one.
pub open spec fn node_on_way(plan: PlanView, way: Seq<int>) -> Option<Node>
    decreases way.len(),
{
    if way.len() == 0 {
        Some(plan.node)
    } else if 0 <= way[0] < plan.children.len() {
        node_on_way(plan.children[way[0]], way.drop_first())
    } else {
        None
    }
}

/// A plan that runs in stages already, or that holds a subquery anywhere that must be run before it, is
/// left alone. Any other plan is cut into stages only if there is more than one.
pub proof fn plans_are_left_alone_where_they_must(
    original: PlanView,
    cfg: OptimizerConfig,
    known: Seq<usize>,
    outcome: OptimizerOutcome,
    way: Seq<int>,
)
    requires
        is_optimized(original, cfg, known, outcome),
    ensures
        original.node.kind is Distributed ==> outcome is LeftAlone,
        node_on_way(original, way) matches Some(node) ==> (node.kind is ScalarSubquery
            ==> outcome is LeftAlone),
        outcome matches OptimizerOutcome::Distributed(plan) ==> stage_nums(plan@).len() > 0,
        prepared(original, cfg.planner).node.partitioning.count() <= 1,
{
    lemma_subquery_on_way(original, way);
    if let OptimizerOutcome::Distributed(plan) = outcome {
        let planned = prepared(original, cfg.planner);
        if let AnnotationProgress::Done(a, _) = annotate(
            planned,
            None,
            cfg.planner,
            true,
            known,
            0,
        ) {
            stages_are_numbered_in_order(a, 1);
            if let Ok((staged, _)) = distributed(a, 1) {
                lemma_coalesced_keeps_nums(staged, cfg.batches.shuffle_batch_size);
            }
        }
    }
}

proof fn lemma_subquery_on_way(plan: PlanView, way: Seq<int>)
    ensures
        node_on_way(plan, way) matches Some(node) ==> (node.kind is ScalarSubquery
            ==> holds_scalar_subquery(plan)),
    decreases way.len(),
{
    if way.len() > 0 && 0 <= way[0] < plan.children.len() {
        lemma_subquery_on_way(plan.children[way[0]], way.drop_first());
    }
}

proof fn lemma_coalesced_keeps_nums(plan: StagedView, size: usize)
    ensures
        coalesced(plan, size) matches Ok(r) ==> stage_nums(r) == stage_nums(plan),
    decreases plan, 0int,
{
    lemma_all_coalesced_keep_nums(plan.children, size);
    if let Ok(children) = all_coalesced(plan.children, size) {
        if crosses_network(plan.step) && children.len() == 1 {
            let input = gathered(children[0], size);
            assert(seq![input].drop_last() =~= Seq::empty());
            assert(children.drop_last() =~= Seq::empty());
            assert(all_stage_nums(Seq::empty()) =~= Seq::empty());
            assert(all_stage_nums(seq![input]) =~= stage_nums(input));
            assert(all_stage_nums(children) =~= stage_nums(children[0]));
            if gathers(children[0].step) is None {
                assert(seq![children[0]].drop_last() =~= Seq::empty());
                assert(all_stage_nums(seq![children[0]]) =~= stage_nums(children[0]));
                assert(stage_nums(input) =~= stage_nums(children[0]));
            }
        }
    }
}

proof fn lemma_all_coalesced_keep_nums(plans: Seq<StagedView>, size: usize)
    ensures
        all_coalesced(plans, size) matches Ok(r) ==> all_stage_nums(r) == all_stage_nums(plans),
    decreases plans, 1int,
{
    if plans.len() > 0 {
        lemma_all_coalesced_keep_nums(plans.drop_last(), size);
        lemma_coalesced_keeps_nums(plans.last(), size);
        if let Ok(r) = all_coalesced(plans, size) {
            assert(r.drop_last() =~= all_coalesced(plans.drop_last(), size)->Ok_0);
        }
    }
}

} // verus!
