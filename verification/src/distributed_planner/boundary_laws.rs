use crate::distributed_planner::maximum_laws::merges_partitions;
use crate::distributed_planner::plan::{CardinalityEffect, Node, NodeKind, PlanView};
use crate::distributed_planner::plan_annotator::{
    annotate, annotate_boundary, annotate_children, annotate_parent, height, isolate_children,
    largest_factor, lemma_max_height, lemma_propagate_run_height, lemma_propagate_runs_height,
    propagate, propagate_all, propagate_run, propagate_runs, runs_weight, scale_factor,
    settle_stage, spread_count, AnnotatedView, AnnotationError, AnnotationProgress,
    PlanOrNetworkBoundaryView, PlannerConfig, ScaleFactor, Spread,
};
use crate::distributed_planner::task_estimator::{annotation_count, TaskCountAnnotation};
use crate::execution_plans::children_isolator_union::Slot;
use vstd::prelude::*;

verus! {

/// The place where the rows of a node cross the network on their way up, if they do. Rows that are spread
/// by a hash go to the tasks that their hash says. What a node brings together comes from all tasks,
/// unless it is the build side of a join, which goes to all tasks. A leaf is read where it is used.
pub open spec fn crossing_above(plan: PlanView, parent: Option<Node>) -> Option<
    PlanOrNetworkBoundaryView,
> {
    if plan.children.len() == 0 {
        None
    } else {
        match plan.node.kind {
            NodeKind::Repartition => if plan.node.partitioning is Hash {
                Some(PlanOrNetworkBoundaryView::Shuffle)
            } else {
                None
            },
            NodeKind::Broadcast { .. } => if merges_partitions(parent) {
                Some(PlanOrNetworkBoundaryView::Broadcast)
            } else {
                None
            },
            _ => if merges_partitions(parent) {
                Some(PlanOrNetworkBoundaryView::Coalesce)
            } else {
                None
            },
        }
    }
}

/// Whether a node of an annotated plan is that of the plan: the same one, or a union whose children run
/// apart in its place.
pub open spec fn stands_for(annotated: PlanOrNetworkBoundaryView, node: Node) -> bool {
    annotated matches PlanOrNetworkBoundaryView::Plan { node: kept, .. } && (kept == node || (
    node.kind is Union && kept.kind is ChildrenIsolatorUnion && kept.id == node.id
        && kept.estimation == node.estimation))
}

/// Whether an annotated plan is the given plan with the places marked where rows cross the network: each
/// of its nodes is there, with the mark right above it where there is one, and there is nothing else.
pub open spec fn is_marked(plan: PlanView, parent: Option<Node>, annotated: AnnotatedView) -> bool
    decreases plan, 1int,
{
    match crossing_above(plan, parent) {
        Some(crossing) => annotated.plan_or_nb == crossing && annotated.children.len() == 1
            && has_marks_below(plan, annotated.children[0]),
        None => has_marks_below(plan, annotated),
    }
}

/// Whether an annotated plan is the given plan with the places marked below its first node.
pub open spec fn has_marks_below(plan: PlanView, annotated: AnnotatedView) -> bool
    decreases plan, 0int,
{
    &&& stands_for(annotated.plan_or_nb, plan.node)
    &&& annotated.children.len() == plan.children.len()
    &&& forall|i: int|
        0 <= i < plan.children.len() ==> is_marked(
            #[trigger] plan.children[i],
            Some(plan.node),
            annotated.children[i],
        )
}

/// Whether one annotated plan is another with other task counts: nothing but a union whose children run
/// apart from now on is replaced.
spec fn same_marks(before: AnnotatedView, after: AnnotatedView) -> bool
    decreases before,
{
    &&& before.plan_or_nb == after.plan_or_nb || (match before.plan_or_nb {
        PlanOrNetworkBoundaryView::Plan { node, .. } => node.kind is Union && stands_for(
            after.plan_or_nb,
            node,
        ) && !(after.plan_or_nb->Plan_node.kind is Union),
        _ => false,
    })
    &&& after.children.len() == before.children.len()
    &&& forall|i: int|
        0 <= i < before.children.len() ==> same_marks(
            #[trigger] before.children[i],
            after.children[i],
        )
}

spec fn all_same_marks(before: Seq<AnnotatedView>, after: Seq<AnnotatedView>) -> bool {
    after.len() == before.len() && forall|i: int|
        0 <= i < before.len() ==> same_marks(#[trigger] before[i], after[i])
}

proof fn lemma_same_marks_itself(plan: AnnotatedView)
    ensures
        same_marks(plan, plan),
    decreases plan,
{
    assert forall|i: int| 0 <= i < plan.children.len() implies same_marks(
        #[trigger] plan.children[i],
        plan.children[i],
    ) by {
        lemma_same_marks_itself(plan.children[i]);
    }
}

proof fn lemma_same_marks_twice(a: AnnotatedView, b: AnnotatedView, c: AnnotatedView)
    requires
        same_marks(a, b),
        same_marks(b, c),
    ensures
        same_marks(a, c),
    decreases a,
{
    assert forall|i: int| 0 <= i < a.children.len() implies same_marks(
        #[trigger] a.children[i],
        c.children[i],
    ) by {
        assert(same_marks(b.children[i], c.children[i]));
        lemma_same_marks_twice(a.children[i], b.children[i], c.children[i]);
    }
}

proof fn lemma_propagate_marks(
    fuel: nat,
    plan: AnnotatedView,
    task_count: TaskCountAnnotation,
    cfg: PlannerConfig,
)
    ensures
        propagate(fuel, plan, task_count, cfg) matches Ok(p) ==> same_marks(plan, p),
    decreases fuel, 0nat,
{
    lemma_same_marks_itself(plan);
    if fuel > 0 {
        let less = (fuel - 1) as nat;
        match plan.plan_or_nb {
            PlanOrNetworkBoundaryView::Broadcast => {
                if let TaskCountAnnotation::Maximum(max) = task_count {
                    lemma_propagate_all_marks(less, plan.children, Spread::Capped(max), cfg);
                }
            },
            PlanOrNetworkBoundaryView::Plan { node, .. } => {
                if cfg.children_isolator_unions && node.kind is Union {
                    if let Ok((runs, partition_count)) = isolate_children(
                        plan.children,
                        annotation_count(task_count),
                    ) {
                        lemma_propagate_runs_marks(less, plan.children, runs, cfg);
                    }
                } else {
                    lemma_propagate_all_marks(less, plan.children, Spread::Same(task_count), cfg);
                }
            },
            _ => {},
        }
    }
}

proof fn lemma_propagate_all_marks(
    fuel: nat,
    plans: Seq<AnnotatedView>,
    spread: Spread,
    cfg: PlannerConfig,
)
    ensures
        propagate_all(fuel, plans, spread, cfg) matches Ok(ps) ==> all_same_marks(plans, ps),
    decreases fuel, plans.len() + 1,
{
    if plans.len() > 0 {
        let before = plans.drop_last();
        lemma_propagate_all_marks(fuel, before, spread, cfg);
        lemma_propagate_marks(fuel, plans.last(), spread_count(spread, plans.last()), cfg);
        if let Ok(ps) = propagate_all(fuel, plans, spread, cfg) {
            let front = propagate_all(fuel, before, spread, cfg)->Ok_0;
            assert forall|i: int| 0 <= i < plans.len() implies same_marks(
                #[trigger] plans[i],
                ps[i],
            ) by {
                if i < before.len() {
                    assert(before[i] == plans[i]);
                    assert(front[i] == ps[i]);
                }
            }
        }
    }
}

proof fn lemma_propagate_run_marks(
    fuel: nat,
    plans: Seq<AnnotatedView>,
    run: Seq<Slot>,
    cfg: PlannerConfig,
)
    ensures
        propagate_run(fuel, plans, run, cfg) matches Ok(ps) ==> all_same_marks(plans, ps),
    decreases fuel, run.len() + 1,
{
    if run.len() == 0 {
        assert forall|i: int| 0 <= i < plans.len() implies same_marks(
            #[trigger] plans[i],
            plans[i],
        ) by {
            lemma_same_marks_itself(plans[i]);
        }
    } else {
        lemma_propagate_run_marks(fuel, plans, run.drop_last(), cfg);
        if let Ok(front) = propagate_run(fuel, plans, run.drop_last(), cfg) {
            let (child, task_ctx) = run.last();
            if child < front.len() {
                let c = child as int;
                lemma_propagate_marks(
                    fuel,
                    front[c],
                    TaskCountAnnotation::Maximum(task_ctx.task_count),
                    cfg,
                );
                if let Ok(ps) = propagate_run(fuel, plans, run, cfg) {
                    assert(same_marks(plans[c], front[c]));
                    lemma_same_marks_twice(plans[c], front[c], ps[c]);
                    assert forall|i: int| 0 <= i < plans.len() implies same_marks(
                        #[trigger] plans[i],
                        ps[i],
                    ) by {
                        assert(same_marks(plans[i], front[i]));
                    }
                }
            }
        }
    }
}

proof fn lemma_propagate_runs_marks(
    fuel: nat,
    plans: Seq<AnnotatedView>,
    runs: Seq<Seq<Slot>>,
    cfg: PlannerConfig,
)
    ensures
        propagate_runs(fuel, plans, runs, cfg) matches Ok(ps) ==> all_same_marks(plans, ps),
    decreases fuel, runs_weight(runs),
{
    if runs.len() == 0 {
        assert forall|i: int| 0 <= i < plans.len() implies same_marks(
            #[trigger] plans[i],
            plans[i],
        ) by {
            lemma_same_marks_itself(plans[i]);
        }
    } else {
        lemma_propagate_runs_marks(fuel, plans, runs.drop_last(), cfg);
        if let Ok(front) = propagate_runs(fuel, plans, runs.drop_last(), cfg) {
            lemma_propagate_run_marks(fuel, front, runs.last(), cfg);
            if let Ok(ps) = propagate_runs(fuel, plans, runs, cfg) {
                assert forall|i: int| 0 <= i < plans.len() implies same_marks(
                    #[trigger] plans[i],
                    ps[i],
                ) by {
                    assert(same_marks(plans[i], front[i]));
                    assert(same_marks(front[i], ps[i]));
                    lemma_same_marks_twice(plans[i], front[i], ps[i]);
                }
            }
        }
    }
}

proof fn lemma_keeps_marks(
    plan: PlanView,
    parent: Option<Node>,
    before: AnnotatedView,
    after: AnnotatedView,
)
    requires
        same_marks(before, after),
    ensures
        is_marked(plan, parent, before) ==> is_marked(plan, parent, after),
        has_marks_below(plan, before) ==> has_marks_below(plan, after),
    decreases plan, 1int,
{
    lemma_keeps_marks_below(plan, before, after);
    if is_marked(plan, parent, before) && crossing_above(plan, parent) is Some {
        assert(same_marks(before.children[0], after.children[0]));
        lemma_keeps_marks_below(plan, before.children[0], after.children[0]);
    }
}

proof fn lemma_keeps_marks_below(plan: PlanView, before: AnnotatedView, after: AnnotatedView)
    requires
        same_marks(before, after),
    ensures
        has_marks_below(plan, before) ==> has_marks_below(plan, after),
    decreases plan, 0int,
{
    if has_marks_below(plan, before) {
        assert forall|i: int| 0 <= i < plan.children.len() implies is_marked(
            #[trigger] plan.children[i],
            Some(plan.node),
            after.children[i],
        ) by {
            assert(same_marks(before.children[i], after.children[i]));
            lemma_keeps_marks(
                plan.children[i],
                Some(plan.node),
                before.children[i],
                after.children[i],
            );
        }
    }
}

/// Annotating a plan marks exactly those places where rows cross the network: right above the nodes that
/// spread rows by a hash, and right below the nodes that bring all partitions together, unless a leaf
/// stands there.
pub proof fn rows_cross_where_they_must(
    plan: PlanView,
    parent: Option<Node>,
    cfg: PlannerConfig,
    root: bool,
    known: Seq<usize>,
    used: nat,
)
    ensures
        annotate(plan, parent, cfg, root, known, used) matches AnnotationProgress::Done(a, _)
            ==> is_marked(plan, parent, a),
    decreases plan,
{
    if plan.children.len() > 0 {
        lemma_children_cross(plan.children, plan.node, cfg, known, used);
        if let AnnotationProgress::Done(children, taken) = annotate_children(
            plan.children,
            plan.node,
            cfg,
            known,
            used,
        ) {
            let annotated = annotate_parent(plan, children, cfg);
            assert(has_marks_below(plan, annotated));
            lemma_propagate_marks(height(annotated), annotated, annotated.task_count, cfg);
            if let Ok(settled) = propagate(
                height(annotated),
                annotated,
                annotated.task_count,
                cfg,
            ) {
                lemma_keeps_marks_below(plan, annotated, settled);
            }
        }
    }
}

proof fn lemma_children_cross(
    plans: Seq<PlanView>,
    parent: Node,
    cfg: PlannerConfig,
    known: Seq<usize>,
    used: nat,
)
    ensures
        annotate_children(plans, parent, cfg, known, used) matches AnnotationProgress::Done(ps, _)
            ==> ps.len() == plans.len() && forall|i: int|
            0 <= i < plans.len() ==> is_marked(#[trigger] plans[i], Some(parent), ps[i]),
    decreases plans,
{
    if plans.len() > 0 {
        let front = plans.drop_last();
        lemma_children_cross(front, parent, cfg, known, used);
        if let AnnotationProgress::Done(before, taken) = annotate_children(
            front,
            parent,
            cfg,
            known,
            used,
        ) {
            rows_cross_where_they_must(plans.last(), Some(parent), cfg, false, known, taken);
            if let AnnotationProgress::Done(ps, _) = annotate_children(
                plans,
                parent,
                cfg,
                known,
                used,
            ) {
                assert forall|i: int| 0 <= i < plans.len() implies is_marked(
                    #[trigger] plans[i],
                    Some(parent),
                    ps[i],
                ) by {
                    if i < front.len() {
                        assert(front[i] == plans[i]);
                        assert(before[i] == ps[i]);
                    }
                }
            }
        }
    }
}

/// Whether, wherever the build side of a join goes to all the tasks of a stage that has a maximum, the
/// stage that it comes from has no more tasks than that.
pub open spec fn sent_sides_are_capped(plan: AnnotatedView) -> bool
    decreases plan,
{
    &&& forall|i: int|
        0 <= i < plan.children.len() ==> sent_sides_are_capped(#[trigger] plan.children[i])
    &&& plan.plan_or_nb is Broadcast ==> (plan.task_count matches TaskCountAnnotation::Maximum(max)
        ==> forall|i: int|
        0 <= i < plan.children.len() ==> annotation_count((#[trigger] plan.children[i]).task_count)
            <= max)
}

proof fn lemma_propagate_caps(
    fuel: nat,
    plan: AnnotatedView,
    task_count: TaskCountAnnotation,
    cfg: PlannerConfig,
)
    requires
        sent_sides_are_capped(plan),
        height(plan) <= fuel,
    ensures
        propagate(fuel, plan, task_count, cfg) matches Ok(p) ==> sent_sides_are_capped(p)
            && p.task_count == task_count,
    decreases fuel, 0nat,
{
    let less = (fuel - 1) as nat;
    assert forall|i: int| 0 <= i < plan.children.len() implies height(#[trigger] plan.children[i])
        <= less by {
        lemma_max_height(plan.children, i);
    }
    match plan.plan_or_nb {
        PlanOrNetworkBoundaryView::Broadcast => {
            if let TaskCountAnnotation::Maximum(max) = task_count {
                lemma_propagate_all_caps(less, plan.children, Spread::Capped(max), cfg);
            }
        },
        PlanOrNetworkBoundaryView::Plan { node, .. } => {
            if cfg.children_isolator_unions && node.kind is Union {
                if let Ok((runs, partition_count)) = isolate_children(
                    plan.children,
                    annotation_count(task_count),
                ) {
                    lemma_propagate_runs_caps(less, plan.children, runs, cfg);
                }
            } else {
                lemma_propagate_all_caps(less, plan.children, Spread::Same(task_count), cfg);
            }
        },
        _ => {},
    }
}

proof fn lemma_propagate_all_caps(
    fuel: nat,
    plans: Seq<AnnotatedView>,
    spread: Spread,
    cfg: PlannerConfig,
)
    requires
        forall|i: int|
            0 <= i < plans.len() ==> sent_sides_are_capped(#[trigger] plans[i]) && height(plans[i])
                <= fuel,
    ensures
        propagate_all(fuel, plans, spread, cfg) matches Ok(ps) ==> ps.len() == plans.len()
            && forall|i: int|
            0 <= i < ps.len() ==> sent_sides_are_capped(#[trigger] ps[i]) && ps[i].task_count
                == spread_count(spread, plans[i]),
    decreases fuel, plans.len() + 1,
{
    if plans.len() > 0 {
        let before = plans.drop_last();
        assert forall|i: int| 0 <= i < before.len() implies sent_sides_are_capped(
            #[trigger] before[i],
        ) && height(before[i]) <= fuel by {
            assert(before[i] == plans[i]);
        }
        lemma_propagate_all_caps(fuel, before, spread, cfg);
        assert(plans.last() == plans[plans.len() - 1]);
        lemma_propagate_caps(fuel, plans.last(), spread_count(spread, plans.last()), cfg);
        if let Ok(ps) = propagate_all(fuel, plans, spread, cfg) {
            let front = propagate_all(fuel, before, spread, cfg)->Ok_0;
            assert forall|i: int| 0 <= i < ps.len() implies sent_sides_are_capped(#[trigger] ps[i])
                && ps[i].task_count == spread_count(spread, plans[i]) by {
                if i < before.len() {
                    assert(front[i] == ps[i]);
                    assert(before[i] == plans[i]);
                }
            }
        }
    }
}

proof fn lemma_propagate_run_caps(
    fuel: nat,
    plans: Seq<AnnotatedView>,
    run: Seq<Slot>,
    cfg: PlannerConfig,
)
    requires
        forall|i: int|
            0 <= i < plans.len() ==> sent_sides_are_capped(#[trigger] plans[i]) && height(plans[i])
                <= fuel,
    ensures
        propagate_run(fuel, plans, run, cfg) matches Ok(ps) ==> ps.len() == plans.len() && forall|
            i: int,
        |
            0 <= i < ps.len() ==> sent_sides_are_capped(#[trigger] ps[i]),
    decreases fuel, run.len() + 1,
{
    if run.len() > 0 {
        lemma_propagate_run_caps(fuel, plans, run.drop_last(), cfg);
        lemma_propagate_run_height(fuel, plans, run.drop_last(), cfg);
        if let Ok(front) = propagate_run(fuel, plans, run.drop_last(), cfg) {
            let (child, task_ctx) = run.last();
            if child < front.len() {
                let c = child as int;
                assert(height(front[c]) == height(plans[c]));
                lemma_propagate_caps(
                    fuel,
                    front[c],
                    TaskCountAnnotation::Maximum(task_ctx.task_count),
                    cfg,
                );
            }
        }
    }
}

proof fn lemma_propagate_runs_caps(
    fuel: nat,
    plans: Seq<AnnotatedView>,
    runs: Seq<Seq<Slot>>,
    cfg: PlannerConfig,
)
    requires
        forall|i: int|
            0 <= i < plans.len() ==> sent_sides_are_capped(#[trigger] plans[i]) && height(plans[i])
                <= fuel,
    ensures
        propagate_runs(fuel, plans, runs, cfg) matches Ok(ps) ==> ps.len() == plans.len()
            && forall|i: int| 0 <= i < ps.len() ==> sent_sides_are_capped(#[trigger] ps[i]),
    decreases fuel, runs_weight(runs),
{
    if runs.len() > 0 {
        lemma_propagate_runs_caps(fuel, plans, runs.drop_last(), cfg);
        lemma_propagate_runs_height(fuel, plans, runs.drop_last(), cfg);
        if let Ok(front) = propagate_runs(fuel, plans, runs.drop_last(), cfg) {
            assert forall|i: int| 0 <= i < front.len() implies sent_sides_are_capped(
                #[trigger] front[i],
            ) && height(front[i]) <= fuel by {
                assert(height(front[i]) == height(plans[i]));
                assert(height(plans[i]) <= fuel);
            }
            lemma_propagate_run_caps(fuel, front, runs.last(), cfg);
        }
    }
}

/// The build side of a join that goes to all the tasks of a stage with a maximum comes from a stage that
/// keeps to that maximum too.
pub proof fn maximums_hold_for_sent_sides(
    plan: PlanView,
    parent: Option<Node>,
    cfg: PlannerConfig,
    root: bool,
    known: Seq<usize>,
    used: nat,
)
    ensures
        annotate(plan, parent, cfg, root, known, used) matches AnnotationProgress::Done(a, _)
            ==> sent_sides_are_capped(a),
    decreases plan,
{
    if plan.children.len() > 0 {
        lemma_children_capped(plan.children, plan.node, cfg, known, used);
        if let AnnotationProgress::Done(children, taken) = annotate_children(
            plan.children,
            plan.node,
            cfg,
            known,
            used,
        ) {
            let annotated = annotate_parent(plan, children, cfg);
            lemma_propagate_caps(height(annotated), annotated, annotated.task_count, cfg);
        }
    }
}

proof fn lemma_children_capped(
    plans: Seq<PlanView>,
    parent: Node,
    cfg: PlannerConfig,
    known: Seq<usize>,
    used: nat,
)
    ensures
        annotate_children(plans, parent, cfg, known, used) matches AnnotationProgress::Done(ps, _)
            ==> forall|i: int| 0 <= i < ps.len() ==> sent_sides_are_capped(#[trigger] ps[i]),
    decreases plans,
{
    if plans.len() > 0 {
        lemma_children_capped(plans.drop_last(), parent, cfg, known, used);
        if let AnnotationProgress::Done(before, taken) = annotate_children(
            plans.drop_last(),
            parent,
            cfg,
            known,
            used,
        ) {
            maximums_hold_for_sent_sides(plans.last(), Some(parent), cfg, false, known, taken);
        }
    }
}

/// How many times a factor stands for growth, less the times that it stands for shrinking.
pub open spec fn degree(factor: ScaleFactor) -> int
    decreases factor,
{
    match factor {
        ScaleFactor::One => 0,
        ScaleFactor::Divided(inner) => degree(*inner) - 1,
        ScaleFactor::Multiplied(inner) => degree(*inner) + 1,
        ScaleFactor::Larger(a, b) => if degree(*a) >= degree(*b) {
            degree(*a)
        } else {
            degree(*b)
        },
    }
}

/// Whether data can grow by the given degree on its way to a node: there is a way from the bottom of the
/// stage on which that many more nodes let data grow than let it shrink.
pub open spec fn grows_on_some_way(plan: AnnotatedView, by: int) -> bool
    decreases plan,
{
    match plan.plan_or_nb {
        PlanOrNetworkBoundaryView::Plan { node, .. } => {
            let below = by - match node.cardinality_effect {
                CardinalityEffect::GreaterEqual => 1int,
                CardinalityEffect::LowerEqual => -1int,
                _ => 0int,
            };
            if plan.children.len() == 0 {
                below == 0
            } else {
                exists|i: int|
                    0 <= i < plan.children.len() && grows_on_some_way(
                        #[trigger] plan.children[i],
                        below,
                    )
            }
        },
        _ => by == 0,
    }
}

/// The growth of the data of a stage is that on the way on which it grows most.
pub proof fn stages_grow_by_the_largest_way(plan: AnnotatedView)
    ensures
        grows_on_some_way(plan, degree(scale_factor(plan))),
        forall|by: int| #[trigger]
            grows_on_some_way(plan, by) ==> by <= degree(scale_factor(plan)),
    decreases plan, 0int,
{
    assert(degree(ScaleFactor::One) == 0);
    if let PlanOrNetworkBoundaryView::Plan { node, .. } = plan.plan_or_nb {
        let effect = match node.cardinality_effect {
            CardinalityEffect::GreaterEqual => 1int,
            CardinalityEffect::LowerEqual => -1int,
            _ => 0int,
        };
        let all = degree(scale_factor(plan));
        lemma_largest_way(plan.children);
        if plan.children.len() == 0 {
            assert(largest_factor(plan.children) is None);
            assert(all == effect);
        } else {
            let top = degree(largest_factor(plan.children)->Some_0);
            assert(all == top + effect);
            let i = choose|i: int|
                0 <= i < plan.children.len() && grows_on_some_way(#[trigger] plan.children[i], top);
            assert(grows_on_some_way(plan.children[i], all - effect));
            assert forall|by: int| #[trigger] grows_on_some_way(plan, by) implies by <= all by {
                let j = choose|j: int|
                    0 <= j < plan.children.len() && grows_on_some_way(
                        #[trigger] plan.children[j],
                        by - effect,
                    );
                assert(grows_on_some_way(plan.children[j], by - effect));
            }
        }
    }
}

proof fn lemma_largest_way(plans: Seq<AnnotatedView>)
    ensures
        match largest_factor(plans) {
            None => plans.len() == 0,
            Some(factor) => plans.len() > 0 && (exists|i: int|
                0 <= i < plans.len() && grows_on_some_way(#[trigger] plans[i], degree(factor)))
                && forall|i: int, by: int|
                0 <= i < plans.len() && #[trigger] grows_on_some_way(plans[i], by) ==> by <= degree(
                    factor,
                ),
        },
    decreases plans, 1int,
{
    if plans.len() > 0 {
        let before = plans.drop_last();
        let last = plans.last();
        let n = plans.len() - 1;
        lemma_largest_way(before);
        stages_grow_by_the_largest_way(last);
        assert(plans[n] == last);
        let factor = largest_factor(plans)->Some_0;
        if let Some(rest) = largest_factor(before) {
            let i = choose|i: int|
                0 <= i < before.len() && grows_on_some_way(#[trigger] before[i], degree(rest));
            assert(plans[i] == before[i]);
            assert(grows_on_some_way(plans[i], degree(rest)));
        }
        assert(grows_on_some_way(plans[n], degree(scale_factor(last))));
        assert forall|i: int, by: int|
            0 <= i < plans.len() && #[trigger] grows_on_some_way(plans[i], by) implies by
            <= degree(factor) by {
            if i < n {
                assert(before[i] == plans[i]);
                assert(grows_on_some_way(before[i], by));
            }
        }
    }
}

/// The places in a plan where rows cross to a stage whose task count must be found.
pub open spec fn open_counts(plan: PlanView, parent: Option<Node>) -> nat
    decreases plan,
{
    all_open_counts(plan.children, plan.node) + match crossing_above(plan, parent) {
        Some(PlanOrNetworkBoundaryView::Shuffle) => 1nat,
        Some(PlanOrNetworkBoundaryView::Broadcast) => 1nat,
        _ => 0nat,
    }
}

/// Those places in the children of a node.
pub open spec fn all_open_counts(plans: Seq<PlanView>, parent: Node) -> nat
    decreases plans,
{
    if plans.len() == 0 {
        0
    } else {
        all_open_counts(plans.drop_last(), parent) + open_counts(plans.last(), Some(parent))
    }
}

/// The task counts that were found are used one after the other, from the bottom of the plan up, each for
/// the stage above one place where rows cross. Above a place where one node reads all partitions there is
/// one task. A plan asks for a further task count only when all those that were found are used.
pub proof fn found_task_counts_are_used_in_order(
    plan: PlanView,
    parent: Option<Node>,
    cfg: PlannerConfig,
    root: bool,
    known: Seq<usize>,
    used: nat,
)
    requires
        used <= known.len(),
    ensures
        match annotate(plan, parent, cfg, root, known, used) {
            AnnotationProgress::Done(a, after) => {
                &&& after == used + open_counts(plan, parent)
                &&& after <= known.len()
                &&& match crossing_above(plan, parent) {
                    Some(PlanOrNetworkBoundaryView::Coalesce) => a.task_count
                        == TaskCountAnnotation::Maximum(1),
                    Some(_) => a.task_count == TaskCountAnnotation::Desired(known[after - 1]),
                    None => true,
                }
            },
            AnnotationProgress::NeedsTaskCount { .. } => known.len() < used + open_counts(
                plan,
                parent,
            ),
            AnnotationProgress::Failed(_) => true,
        },
    decreases plan,
{
    lemma_children_use_counts(plan.children, plan.node, cfg, known, used);
}

proof fn lemma_children_use_counts(
    plans: Seq<PlanView>,
    parent: Node,
    cfg: PlannerConfig,
    known: Seq<usize>,
    used: nat,
)
    requires
        used <= known.len(),
    ensures
        match annotate_children(plans, parent, cfg, known, used) {
            AnnotationProgress::Done(_, after) => after == used + all_open_counts(plans, parent)
                && after <= known.len(),
            AnnotationProgress::NeedsTaskCount { .. } => known.len() < used + all_open_counts(
                plans,
                parent,
            ),
            AnnotationProgress::Failed(_) => true,
        },
    decreases plans,
{
    if plans.len() > 0 {
        lemma_children_use_counts(plans.drop_last(), parent, cfg, known, used);
        if let AnnotationProgress::Done(_, taken) = annotate_children(
            plans.drop_last(),
            parent,
            cfg,
            known,
            used,
        ) {
            found_task_counts_are_used_in_order(
                plans.last(),
                Some(parent),
                cfg,
                false,
                known,
                taken,
            );
        }
    }
}

/// The task count of a stage is asked for in terms of the stage below it: the number of tasks that the
/// whole stage below runs on, and the growth on the way on which its data grows most.
pub proof fn task_counts_are_asked_by_the_stage_below(
    boundary: PlanOrNetworkBoundaryView,
    plan: AnnotatedView,
    cfg: PlannerConfig,
    known: Seq<usize>,
    used: nat,
)
    ensures
        match annotate_boundary(boundary, plan, cfg, known, used) {
            AnnotationProgress::NeedsTaskCount { previous, factor } => {
                &&& !(boundary is Coalesce)
                &&& settle_stage(plan, cfg) matches Ok(below)
                &&& annotation_count(below.task_count) == previous
                &&& grows_on_some_way(below, degree(factor))
                &&& forall|by: int| #[trigger]
                    grows_on_some_way(below, by) ==> by <= degree(factor)
            },
            AnnotationProgress::Done(above, _) => {
                &&& above.plan_or_nb == boundary
                &&& above.children.len() == 1
                &&& settle_stage(plan, cfg) == Ok::<AnnotatedView, AnnotationError>(
                    above.children[0],
                )
            },
            AnnotationProgress::Failed(e) => settle_stage(plan, cfg) == Err::<
                AnnotatedView,
                AnnotationError,
            >(e),
        },
{
    if let Ok(below) = settle_stage(plan, cfg) {
        stages_grow_by_the_largest_way(below);
    }
}

} // verus!
