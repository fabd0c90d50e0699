use crate::distributed_planner::plan::{Node, NodeKind, PartitionMode, PlanView};
use crate::distributed_planner::plan_annotator::{
    annotate, annotate_children, annotate_leaf, annotate_parent, height, isolate_children,
    merge_all, propagate, propagate_all, propagate_run, propagate_runs, runs_weight,
    settle_task_count, spread_count, task_counts, AnnotatedView, AnnotationProgress,
    PlanOrNetworkBoundaryView, PlannerConfig, Spread,
};
use crate::distributed_planner::task_estimator::{annotation_count, TaskCountAnnotation};
use crate::execution_plans::children_isolator_union::{
    all_slots, lemma_run_start, lemma_slot_in_range, lemma_slots_len, run_start, task_runs,
    total_count, trim_tasks, trimming_is_fair, Slot,
};
use vstd::prelude::*;

verus! {

/// Whether a task count is what several wishes come to. Where one of them is a maximum, it is a maximum
/// that one of them asked for, and it exceeds none of them. Where all are desires, it is the largest.
pub open spec fn is_agreement(
    wishes: Seq<TaskCountAnnotation>,
    result: TaskCountAnnotation,
) -> bool {
    &&& wishes.contains(result)
    &&& forall|i: int|
        0 <= i < wishes.len() ==> match (#[trigger] wishes[i], result) {
            (TaskCountAnnotation::Maximum(max), TaskCountAnnotation::Maximum(n)) => n <= max,
            (TaskCountAnnotation::Maximum(_), TaskCountAnnotation::Desired(_)) => false,
            (TaskCountAnnotation::Desired(_), TaskCountAnnotation::Maximum(_)) => true,
            (TaskCountAnnotation::Desired(wish), TaskCountAnnotation::Desired(n)) => n >= wish,
        }
}

/// What a node and its children wish for, the node first: one task, if nothing is known of it.
pub open spec fn wishes(node: Node, children: Seq<AnnotatedView>) -> Seq<TaskCountAnnotation> {
    seq![
        match node.estimation {
            Some(estimation) => estimation,
            None => TaskCountAnnotation::Desired(1),
        },
    ] + Seq::new(children.len(), |i: int| children[i].task_count)
}

/// Whether a task count is another one, or the largest number of tasks that a stage may have if that is
/// less. Desires stay desires, and maximums stay maximums.
pub open spec fn is_capped(
    wish: TaskCountAnnotation,
    result: TaskCountAnnotation,
    max_tasks: usize,
) -> bool {
    &&& wish is Maximum <==> result is Maximum
    &&& annotation_count(result) <= annotation_count(wish)
    &&& annotation_count(result) <= max_tasks
    &&& annotation_count(result) == annotation_count(wish) || annotation_count(result) == max_tasks
}

proof fn lemma_agreement(own: TaskCountAnnotation, children: Seq<AnnotatedView>)
    ensures
        is_agreement(
            seq![own] + Seq::new(children.len(), |i: int| children[i].task_count),
            merge_all(own, children),
        ),
    decreases children.len(),
{
    let all = seq![own] + Seq::new(children.len(), |i: int| children[i].task_count);
    let result = merge_all(own, children);
    if children.len() == 0 {
        assert(all[0] == result);
    } else {
        let front = children.drop_last();
        let before = seq![own] + Seq::new(front.len(), |i: int| front[i].task_count);
        lemma_agreement(own, front);
        assert(all =~= before.push(children.last().task_count));
        assert(all[all.len() - 1] == children.last().task_count);
        let kept = merge_all(own, front);
        let at = choose|i: int| 0 <= i < before.len() && before[i] == kept;
        assert(all[at] == kept);
        assert forall|i: int| 0 <= i < all.len() implies match (#[trigger] all[i], result) {
            (TaskCountAnnotation::Maximum(max), TaskCountAnnotation::Maximum(n)) => n <= max,
            (TaskCountAnnotation::Maximum(_), TaskCountAnnotation::Desired(_)) => false,
            (TaskCountAnnotation::Desired(_), TaskCountAnnotation::Maximum(_)) => true,
            (TaskCountAnnotation::Desired(wish), TaskCountAnnotation::Desired(n)) => n >= wish,
        } by {
            if i < before.len() {
                assert(all[i] == before[i]);
            }
        }
        assert(all.contains(result));
    }
}

/// A node with children runs on the number of tasks that it and all its children come to, within the
/// limit: a maximum of any of them holds for all, and otherwise the largest desire counts. There are two
/// exceptions. A union whose children run apart runs on as many tasks as they want together, and a join
/// that collects its build side without sending it to all tasks runs on one.
pub proof fn parents_agree_with_children(
    plan: PlanView,
    children: Seq<AnnotatedView>,
    cfg: PlannerConfig,
)
    requires
        cfg.children_isolator_unions && plan.node.kind is Union ==> total_count(
            task_counts(children),
        ) <= usize::MAX,
    ensures
        ({
            let result = annotate_parent(plan, children, cfg).task_count;
            if cfg.children_isolator_unions && plan.node.kind is Union {
                exists|n: usize|
                    n == total_count(task_counts(children)) && #[trigger] is_capped(
                        TaskCountAnnotation::Desired(n),
                        result,
                        cfg.max_tasks,
                    )
            } else if !cfg.broadcast_joins && (plan.node.kind matches NodeKind::HashJoin {
                mode,
                ..
            } && mode == PartitionMode::CollectLeft) {
                is_capped(TaskCountAnnotation::Maximum(1), result, cfg.max_tasks)
            } else {
                exists|agreed: TaskCountAnnotation|
                    is_agreement(wishes(plan.node, children), agreed) && #[trigger] is_capped(
                        agreed,
                        result,
                        cfg.max_tasks,
                    )
            }
        }),
{
    let own = match plan.node.estimation {
        Some(estimation) => estimation,
        None => TaskCountAnnotation::Desired(1),
    };
    lemma_agreement(own, children);
    let settled = settle_task_count(plan.node, children, cfg);
    let result = annotate_parent(plan, children, cfg).task_count;
    assert(is_capped(settled, result, cfg.max_tasks));
}

/// A leaf runs on the number of tasks that was estimated for it, within the limit and in the same sense.
/// One without an estimation cannot be distributed.
pub proof fn leaves_run_as_estimated(plan: PlanView, cfg: PlannerConfig)
    ensures
        match plan.node.estimation {
            Some(estimation) => is_capped(
                estimation,
                annotate_leaf(plan, cfg).task_count,
                cfg.max_tasks,
            ),
            None => annotate_leaf(plan, cfg).task_count == TaskCountAnnotation::Maximum(1),
        },
{
}

/// Whether the children of a node run apart.
pub open spec fn runs_children_apart(node: Node, cfg: PlannerConfig) -> bool {
    cfg.children_isolator_unions && node.kind is Union
}

/// Whether a node may run on the given number of tasks. One with an estimated maximum runs on no more
/// than that, and a leaf that nothing is known of cannot be distributed, nor can a join that collects its
/// build side without sending it to all tasks, or the reading of all partitions by one node. One task is
/// always possible. A union whose children run apart answers to its children and not to an estimation.
pub open spec fn may_run_on(plan: AnnotatedView, tasks: usize, cfg: PlannerConfig) -> bool {
    match plan.plan_or_nb {
        PlanOrNetworkBoundaryView::Plan { node, .. } => tasks <= 1 || match node.estimation {
            Some(TaskCountAnnotation::Maximum(max)) => tasks <= max || (
            cfg.children_isolator_unions && (node.kind is Union
                || node.kind is ChildrenIsolatorUnion)),
            Some(TaskCountAnnotation::Desired(_)) => true,
            None => plan.children.len() > 0,
        } && !(plan.children.len() > 0 && !cfg.broadcast_joins && (
        node.kind matches NodeKind::HashJoin { mode, .. } && mode == PartitionMode::CollectLeft)),
        PlanOrNetworkBoundaryView::Coalesce => tasks <= 1,
        _ => true,
    }
}

/// Whether every node of a plan runs on a number of tasks that it may run on.
pub open spec fn respects_maximums(plan: AnnotatedView, cfg: PlannerConfig) -> bool
    decreases plan,
{
    &&& may_run_on(plan, annotation_count(plan.task_count), cfg)
    &&& forall|i: int|
        0 <= i < plan.children.len() ==> respects_maximums(#[trigger] plan.children[i], cfg)
}

/// Whether all the nodes of a stage, from the given one down, may run on the given number of tasks. The
/// children of a union that run apart are cut into their own numbers of tasks.
spec fn stage_may_run_on(plan: AnnotatedView, tasks: usize, cfg: PlannerConfig) -> bool
    decreases plan,
{
    match plan.plan_or_nb {
        PlanOrNetworkBoundaryView::Plan { node, .. } => if runs_children_apart(node, cfg) {
            forall|i: int|
                0 <= i < plan.children.len() ==> stage_may_run_on(
                    #[trigger] plan.children[i],
                    annotation_count(plan.children[i].task_count),
                    cfg,
                )
        } else {
            may_run_on(plan, tasks, cfg) && forall|i: int|
                0 <= i < plan.children.len() ==> stage_may_run_on(
                    #[trigger] plan.children[i],
                    tasks,
                    cfg,
                )
        },
        _ => may_run_on(plan, tasks, cfg),
    }
}

/// Whether no union whose children run apart is reached when a stage is given its task count.
spec fn reaches_no_union(plan: AnnotatedView, cfg: PlannerConfig) -> bool
    decreases plan,
{
    match plan.plan_or_nb {
        PlanOrNetworkBoundaryView::Plan { node, .. } => !runs_children_apart(node, cfg) && forall|
            i: int,
        |
            0 <= i < plan.children.len() ==> reaches_no_union(#[trigger] plan.children[i], cfg),
        PlanOrNetworkBoundaryView::Broadcast => forall|i: int|
            0 <= i < plan.children.len() ==> reaches_no_union(#[trigger] plan.children[i], cfg),
        _ => true,
    }
}

/// Whether a stage can be given a task count, and the parts of it that may get one more than once can be
/// given another.
spec fn is_ready(plan: AnnotatedView, cfg: PlannerConfig) -> bool
    decreases plan,
{
    match plan.plan_or_nb {
        PlanOrNetworkBoundaryView::Plan { node, .. } => forall|i: int|
            0 <= i < plan.children.len() ==> is_ready(#[trigger] plan.children[i], cfg) && (
            runs_children_apart(node, cfg) ==> plan.children.len() <= usize::MAX
                && reaches_no_union(plan.children[i], cfg)),
        PlanOrNetworkBoundaryView::Broadcast => forall|i: int|
            0 <= i < plan.children.len() ==> is_ready(#[trigger] plan.children[i], cfg)
                && reaches_no_union(plan.children[i], cfg) && stage_may_run_on(
                plan.children[i],
                annotation_count(plan.children[i].task_count),
                cfg,
            ),
        _ => true,
    }
}

/// Whether what held of a plan before it was given a task count holds after.
spec fn stays_ready(before: AnnotatedView, after: AnnotatedView, cfg: PlannerConfig) -> bool {
    reaches_no_union(before, cfg) ==> {
        &&& reaches_no_union(after, cfg)
        &&& is_ready(after, cfg)
        &&& forall|t: usize|
            stage_may_run_on(before, t, cfg) ==> #[trigger] stage_may_run_on(after, t, cfg)
        &&& stage_may_run_on(before, annotation_count(before.task_count), cfg) ==> stage_may_run_on(
            after,
            annotation_count(after.task_count),
            cfg,
        )
    }
}

proof fn lemma_fewer_tasks(plan: AnnotatedView, tasks: usize, fewer: usize, cfg: PlannerConfig)
    requires
        stage_may_run_on(plan, tasks, cfg),
        fewer <= tasks || fewer <= 1,
    ensures
        stage_may_run_on(plan, fewer, cfg),
    decreases plan,
{
    if let PlanOrNetworkBoundaryView::Plan { node, .. } = plan.plan_or_nb {
        if !runs_children_apart(node, cfg) {
            assert forall|i: int| 0 <= i < plan.children.len() implies stage_may_run_on(
                #[trigger] plan.children[i],
                fewer,
                cfg,
            ) by {
                if fewer <= tasks || fewer <= 1 {
                    lemma_fewer_tasks(plan.children[i], tasks, fewer, cfg);
                }
            }
        }
    }
}

/// A slot of a union stands for one of the tasks that its child was cut into, and a child is never cut
/// into more tasks than it asked for.
proof fn lemma_run_within(counts: Seq<usize>, budget: usize, t: int, a: int)
    requires
        counts.len() <= usize::MAX,
        0 < budget <= total_count(counts),
        0 <= t < budget,
        0 <= a < task_runs(counts, budget as nat)[t].len(),
    ensures
        task_runs(counts, budget as nat)[t][a].0 < counts.len(),
        task_runs(counts, budget as nat)[t][a].1.task_count <= counts[task_runs(
            counts,
            budget as nat,
        )[t][a].0 as int],
{
    let surplus = (total_count(counts) - budget) as nat;
    let trimmed = trim_tasks(counts, surplus);
    trimming_is_fair(counts, surplus);
    lemma_slots_len(trimmed);
    let n = all_slots(trimmed).len();
    lemma_run_start(n, budget as nat, t);
    let slot = run_start(n, budget as nat, t) + a;
    lemma_slot_in_range(trimmed, slot);
    let child = all_slots(trimmed)[slot].0 as int;
    assert(trimmed[child] <= counts[child]);
}

proof fn lemma_propagate_respects(
    fuel: nat,
    plan: AnnotatedView,
    task_count: TaskCountAnnotation,
    cfg: PlannerConfig,
)
    requires
        respects_maximums(plan, cfg),
        is_ready(plan, cfg),
        stage_may_run_on(plan, annotation_count(task_count), cfg),
    ensures
        propagate(fuel, plan, task_count, cfg) matches Ok(p) ==> respects_maximums(p, cfg)
            && stays_ready(plan, p, cfg),
    decreases fuel, 0nat,
{
    if fuel > 0 {
        let less = (fuel - 1) as nat;
        match plan.plan_or_nb {
            PlanOrNetworkBoundaryView::Broadcast => {
                if let TaskCountAnnotation::Maximum(max) = task_count {
                    let spread = Spread::Capped(max);
                    assert forall|i: int| 0 <= i < plan.children.len() implies stage_may_run_on(
                        #[trigger] plan.children[i],
                        annotation_count(spread_count(spread, plan.children[i])),
                        cfg,
                    ) by {
                        let child = plan.children[i];
                        lemma_fewer_tasks(
                            child,
                            annotation_count(child.task_count),
                            annotation_count(spread_count(spread, child)),
                            cfg,
                        );
                    }
                    lemma_propagate_all_respects(less, plan.children, spread, cfg);
                    if let Ok(p) = propagate(fuel, plan, task_count, cfg) {
                        assert forall|i: int| 0 <= i < p.children.len() implies is_ready(
                            #[trigger] p.children[i],
                            cfg,
                        ) && reaches_no_union(p.children[i], cfg) && stage_may_run_on(
                            p.children[i],
                            annotation_count(p.children[i].task_count),
                            cfg,
                        ) by {
                            assert(is_ready(plan.children[i], cfg));
                            assert(stays_ready(plan.children[i], p.children[i], cfg));
                        }
                    }
                }
            },
            PlanOrNetworkBoundaryView::Plan { node, .. } => {
                if runs_children_apart(node, cfg) {
                    if let Ok((runs, partition_count)) = isolate_children(
                        plan.children,
                        annotation_count(task_count),
                    ) {
                        let counts = task_counts(plan.children);
                        let budget = annotation_count(task_count);
                        assert(runs == task_runs(counts, budget as nat));
                        assert(plan.children.len() > 0) by {
                            if plan.children.len() == 0 {
                                assert(total_count(counts) == 0);
                            }
                        }
                        assert(is_ready(plan.children[0], cfg));
                        assert forall|t: int, a: int|
                            0 <= t < runs.len() && 0 <= a < runs[t].len() implies (
                        #[trigger] runs[t][a]).0 < counts.len() && runs[t][a].1.task_count
                            <= counts[runs[t][a].0 as int] by {
                            lemma_run_within(counts, budget, t, a);
                        }
                        assert forall|i: int| 0 <= i < plan.children.len() implies is_child_of_union(
                            #[trigger] plan.children[i],
                            counts[i],
                            cfg,
                        ) by {
                            assert(is_ready(plan.children[i], cfg));
                            assert(stage_may_run_on(
                                plan.children[i],
                                annotation_count(plan.children[i].task_count),
                                cfg,
                            ));
                        }
                        lemma_propagate_runs_respects(less, plan.children, runs, counts, cfg);
                    }
                } else {
                    lemma_propagate_all_respects(
                        less,
                        plan.children,
                        Spread::Same(task_count),
                        cfg,
                    );
                    if let Ok(p) = propagate(fuel, plan, task_count, cfg) {
                        lemma_stays_ready(plan, p, cfg);
                    }
                }
            },
            _ => {},
        }
    }
}

proof fn lemma_stays_ready(before: AnnotatedView, after: AnnotatedView, cfg: PlannerConfig)
    requires
        before.plan_or_nb matches PlanOrNetworkBoundaryView::Plan { node, .. }
            && !runs_children_apart(node, cfg),
        after.plan_or_nb == before.plan_or_nb,
        after.children.len() == before.children.len(),
        stage_may_run_on(before, annotation_count(after.task_count), cfg),
        forall|i: int|
            0 <= i < before.children.len() ==> stays_ready(
                #[trigger] before.children[i],
                after.children[i],
                cfg,
            ),
    ensures
        stays_ready(before, after, cfg),
{
    if reaches_no_union(before, cfg) {
        assert forall|i: int| 0 <= i < after.children.len() implies reaches_no_union(
            #[trigger] after.children[i],
            cfg,
        ) && is_ready(after.children[i], cfg) by {
            assert(reaches_no_union(before.children[i], cfg));
        }
        assert forall|t: usize| stage_may_run_on(before, t, cfg) implies
            #[trigger] stage_may_run_on(after, t, cfg) by {
            assert forall|i: int| 0 <= i < after.children.len() implies stage_may_run_on(
                #[trigger] after.children[i],
                t,
                cfg,
            ) by {
                assert(reaches_no_union(before.children[i], cfg));
                assert(stage_may_run_on(before.children[i], t, cfg));
            }
        }
    }
}

/// What must hold of a child of a union that was cut into at most the given number of tasks.
spec fn is_child_of_union(plan: AnnotatedView, most: usize, cfg: PlannerConfig) -> bool {
    &&& respects_maximums(plan, cfg)
    &&& is_ready(plan, cfg)
    &&& reaches_no_union(plan, cfg)
    &&& stage_may_run_on(plan, most, cfg)
}

proof fn lemma_propagate_all_respects(
    fuel: nat,
    plans: Seq<AnnotatedView>,
    spread: Spread,
    cfg: PlannerConfig,
)
    requires
        forall|i: int|
            0 <= i < plans.len() ==> respects_maximums(#[trigger] plans[i], cfg) && is_ready(
                plans[i],
                cfg,
            ) && stage_may_run_on(
                plans[i],
                annotation_count(spread_count(spread, plans[i])),
                cfg,
            ),
    ensures
        propagate_all(fuel, plans, spread, cfg) matches Ok(ps) ==> {
            &&& ps.len() == plans.len()
            &&& forall|i: int|
                0 <= i < plans.len() ==> respects_maximums(#[trigger] ps[i], cfg)
            &&& forall|i: int|
                0 <= i < plans.len() ==> stays_ready(#[trigger] plans[i], ps[i], cfg)
        },
    decreases fuel, plans.len() + 1,
{
    if plans.len() > 0 {
        let before = plans.drop_last();
        assert forall|i: int| 0 <= i < before.len() implies respects_maximums(
            #[trigger] before[i],
            cfg,
        ) && is_ready(before[i], cfg) && stage_may_run_on(
            before[i],
            annotation_count(spread_count(spread, before[i])),
            cfg,
        ) by {
            assert(before[i] == plans[i]);
        }
        lemma_propagate_all_respects(fuel, before, spread, cfg);
        assert(plans.last() == plans[plans.len() - 1]);
        lemma_propagate_respects(fuel, plans.last(), spread_count(spread, plans.last()), cfg);
        if let Ok(ps) = propagate_all(fuel, plans, spread, cfg) {
            let front = propagate_all(fuel, before, spread, cfg)->Ok_0;
            assert forall|i: int| 0 <= i < plans.len() implies respects_maximums(
                #[trigger] ps[i],
                cfg,
            ) && stays_ready(plans[i], ps[i], cfg) by {
                if i < before.len() {
                    assert(ps[i] == front[i]);
                    assert(before[i] == plans[i]);
                }
            }
            assert forall|i: int| 0 <= i < plans.len() implies stays_ready(
                #[trigger] plans[i],
                ps[i],
                cfg,
            ) by {
                assert(respects_maximums(ps[i], cfg));
            }
        }
    }
}

proof fn lemma_propagate_run_respects(
    fuel: nat,
    plans: Seq<AnnotatedView>,
    run: Seq<Slot>,
    most: Seq<usize>,
    cfg: PlannerConfig,
)
    requires
        most.len() == plans.len(),
        forall|i: int|
            0 <= i < plans.len() ==> is_child_of_union(#[trigger] plans[i], most[i], cfg),
        forall|a: int|
            0 <= a < run.len() ==> (#[trigger] run[a]).0 < most.len() && run[a].1.task_count
                <= most[run[a].0 as int],
    ensures
        propagate_run(fuel, plans, run, cfg) matches Ok(ps) ==> ps.len() == plans.len() && forall|
            i: int,
        |
            0 <= i < plans.len() ==> is_child_of_union(#[trigger] ps[i], most[i], cfg),
    decreases fuel, run.len() + 1,
{
    if run.len() > 0 {
        let front_run = run.drop_last();
        assert forall|a: int| 0 <= a < front_run.len() implies (#[trigger] front_run[a]).0
            < most.len() && front_run[a].1.task_count <= most[front_run[a].0 as int] by {
            assert(front_run[a] == run[a]);
        }
        lemma_propagate_run_respects(fuel, plans, front_run, most, cfg);
        if let Ok(front) = propagate_run(fuel, plans, front_run, cfg) {
            let (child, task_ctx) = run.last();
            let c = child as int;
            assert(run.last() == run[run.len() - 1]);
            assert(is_child_of_union(front[c], most[c], cfg));
            lemma_fewer_tasks(front[c], most[c], task_ctx.task_count, cfg);
            lemma_propagate_respects(
                fuel,
                front[c],
                TaskCountAnnotation::Maximum(task_ctx.task_count),
                cfg,
            );
            if let Ok(ps) = propagate_run(fuel, plans, run, cfg) {
                assert forall|i: int| 0 <= i < plans.len() implies is_child_of_union(
                    #[trigger] ps[i],
                    most[i],
                    cfg,
                ) by {
                    assert(is_child_of_union(front[i], most[i], cfg));
                }
            }
        }
    }
}

proof fn lemma_propagate_runs_respects(
    fuel: nat,
    plans: Seq<AnnotatedView>,
    runs: Seq<Seq<Slot>>,
    most: Seq<usize>,
    cfg: PlannerConfig,
)
    requires
        most.len() == plans.len(),
        forall|i: int|
            0 <= i < plans.len() ==> is_child_of_union(#[trigger] plans[i], most[i], cfg),
        forall|t: int, a: int|
            0 <= t < runs.len() && 0 <= a < runs[t].len() ==> (#[trigger] runs[t][a]).0
                < most.len() && runs[t][a].1.task_count <= most[runs[t][a].0 as int],
    ensures
        propagate_runs(fuel, plans, runs, cfg) matches Ok(ps) ==> ps.len() == plans.len()
            && forall|i: int|
            0 <= i < plans.len() ==> is_child_of_union(#[trigger] ps[i], most[i], cfg),
    decreases fuel, runs_weight(runs),
{
    if runs.len() > 0 {
        let front_runs = runs.drop_last();
        let last = runs.len() - 1;
        assert forall|t: int, a: int| 0 <= t < front_runs.len() && 0 <= a < front_runs[t].len() implies
            (#[trigger] front_runs[t][a]).0 < most.len() && front_runs[t][a].1.task_count
            <= most[front_runs[t][a].0 as int] by {
            assert(front_runs[t][a] == runs[t][a]);
        }
        lemma_propagate_runs_respects(fuel, plans, front_runs, most, cfg);
        if let Ok(front) = propagate_runs(fuel, plans, front_runs, cfg) {
            let run = runs.last();
            assert forall|a: int| 0 <= a < run.len() implies (#[trigger] run[a]).0 < most.len()
                && run[a].1.task_count <= most[run[a].0 as int] by {
                assert(run[a] == runs[last][a]);
            }
            lemma_propagate_run_respects(fuel, front, run, most, cfg);
        }
    }
}

/// Whether a node brings all partitions together.
pub open spec fn merges_partitions(parent: Option<Node>) -> bool {
    parent matches Some(node) && (node.kind is CoalescePartitions
        || node.kind is SortPreservingMerge)
}

/// Whether unions do not stand in each other's stages, nor in what a join sends to all its tasks. Those
/// would be given the tasks of their children more than once. `inside` tells whether the plan is in the
/// stage of a union or is sent by a join.
pub open spec fn unions_stand_apart(plan: PlanView, parent: Option<Node>, inside: bool) -> bool
    decreases plan,
{
    let cut = plan.children.len() > 0 && if plan.node.kind is Repartition {
        plan.node.partitioning is Hash
    } else {
        merges_partitions(parent) && !(plan.node.kind is Broadcast)
    };
    let within = inside && !cut;
    &&& plan.node.kind is Union ==> !within && plan.children.len() <= usize::MAX
    &&& forall|i: int|
        0 <= i < plan.children.len() ==> unions_stand_apart(
            #[trigger] plan.children[i],
            Some(plan.node),
            within || plan.node.kind is Union || plan.node.kind is Broadcast,
        )
}

/// Whether the stage of a plan may run on any number of tasks, up to the maximum if it has one.
spec fn stage_may_follow(plan: AnnotatedView, cfg: PlannerConfig) -> bool {
    forall|t: usize|
        (plan.task_count matches TaskCountAnnotation::Maximum(max) ==> t <= max || t <= 1)
            ==> #[trigger] stage_may_run_on(plan, t, cfg)
}

proof fn lemma_no_union_apart(plan: AnnotatedView, cfg: PlannerConfig)
    requires
        !cfg.children_isolator_unions,
    ensures
        reaches_no_union(plan, cfg),
    decreases plan,
{
    assert forall|i: int| 0 <= i < plan.children.len() implies reaches_no_union(
        #[trigger] plan.children[i],
        cfg,
    ) by {
        lemma_no_union_apart(plan.children[i], cfg);
    }
}

proof fn lemma_parent_respects(plan: PlanView, children: Seq<AnnotatedView>, cfg: PlannerConfig)
    requires
        children.len() > 0,
        runs_children_apart(plan.node, cfg) ==> total_count(task_counts(children)) <= usize::MAX
            && children.len() <= usize::MAX,
        forall|i: int|
            0 <= i < children.len() ==> respects_maximums(#[trigger] children[i], cfg) && is_ready(
                children[i],
                cfg,
            ) && stage_may_follow(children[i], cfg) && (runs_children_apart(plan.node, cfg)
                ==> reaches_no_union(children[i], cfg)),
    ensures
        respects_maximums(annotate_parent(plan, children, cfg), cfg),
        is_ready(annotate_parent(plan, children, cfg), cfg),
        stage_may_follow(annotate_parent(plan, children, cfg), cfg),
{
    let a = annotate_parent(plan, children, cfg);
    parents_agree_with_children(plan, children, cfg);
    assert(a.children == children);
    if runs_children_apart(plan.node, cfg) {
        assert forall|i: int| 0 <= i < children.len() implies stage_may_run_on(
            #[trigger] children[i],
            annotation_count(children[i].task_count),
            cfg,
        ) by {
            assert(stage_may_follow(children[i], cfg));
        }
    } else {
        let all = wishes(plan.node, children);
        assert forall|t: usize|
            (a.task_count matches TaskCountAnnotation::Maximum(max) ==> t <= max || t
                <= 1) implies #[trigger] stage_may_run_on(a, t, cfg) by {
            if !(!cfg.broadcast_joins && (plan.node.kind matches NodeKind::HashJoin { mode, .. }
                && mode == PartitionMode::CollectLeft)) {
                let agreed = choose|agreed: TaskCountAnnotation|
                    is_agreement(all, agreed) && #[trigger] is_capped(
                        agreed,
                        a.task_count,
                        cfg.max_tasks,
                    );
                assert(is_agreement(all, agreed));
                assert(all[0] == match plan.node.estimation {
                    Some(estimation) => estimation,
                    None => TaskCountAnnotation::Desired(1),
                });
                assert forall|i: int| 0 <= i < children.len() implies stage_may_run_on(
                    #[trigger] children[i],
                    t,
                    cfg,
                ) by {
                    assert(all[i + 1] == children[i].task_count);
                    assert(stage_may_follow(children[i], cfg));
                }
            } else {
                assert forall|i: int| 0 <= i < children.len() implies stage_may_run_on(
                    #[trigger] children[i],
                    t,
                    cfg,
                ) by {
                    assert(stage_may_follow(children[i], cfg));
                }
            }
        }
        assert(stage_may_run_on(a, annotation_count(a.task_count), cfg));
    }
}

proof fn lemma_annotate_respects(
    plan: PlanView,
    parent: Option<Node>,
    cfg: PlannerConfig,
    root: bool,
    known: Seq<usize>,
    used: nat,
    inside: bool,
)
    requires
        cfg.children_isolator_unions ==> unions_stand_apart(plan, parent, inside),
    ensures
        annotate(plan, parent, cfg, root, known, used) matches AnnotationProgress::Done(a, _) ==> {
            &&& respects_maximums(a, cfg)
            &&& !root ==> is_ready(a, cfg) && stage_may_follow(a, cfg)
            &&& !root && (inside || !cfg.children_isolator_unions) ==> reaches_no_union(a, cfg)
        },
    decreases plan,
{
    if !cfg.children_isolator_unions {
        if let AnnotationProgress::Done(a, _) = annotate(plan, parent, cfg, root, known, used) {
            lemma_no_union_apart(a, cfg);
        }
    }
    if plan.children.len() == 0 {
        let a = annotate_leaf(plan, cfg);
        assert(stage_may_run_on(a, annotation_count(a.task_count), cfg));
    } else {
        let cut = if plan.node.kind is Repartition {
            plan.node.partitioning is Hash
        } else {
            merges_partitions(parent) && !(plan.node.kind is Broadcast)
        };
        let below = inside && !cut || plan.node.kind is Union || plan.node.kind is Broadcast;
        lemma_annotate_children_respect(plan.children, plan.node, cfg, known, used, below);
        if let AnnotationProgress::Done(children, used) = annotate_children(
            plan.children,
            plan.node,
            cfg,
            known,
            used,
        ) {
            if !(runs_children_apart(plan.node, cfg) && total_count(task_counts(children))
                > usize::MAX) {
                let annotated = annotate_parent(plan, children, cfg);
                lemma_parent_respects(plan, children, cfg);
                assert(stage_may_run_on(annotated, annotation_count(annotated.task_count), cfg));
                lemma_propagate_respects(
                    height(annotated),
                    annotated,
                    annotated.task_count,
                    cfg,
                );
                if !cfg.children_isolator_unions {
                    lemma_no_union_apart(annotated, cfg);
                } else if below && !(plan.node.kind is Union) {
                    assert(reaches_no_union(annotated, cfg));
                }
            }
        }
    }
}

proof fn lemma_annotate_children_respect(
    plans: Seq<PlanView>,
    parent: Node,
    cfg: PlannerConfig,
    known: Seq<usize>,
    used: nat,
    inside: bool,
)
    requires
        cfg.children_isolator_unions ==> forall|i: int|
            0 <= i < plans.len() ==> unions_stand_apart(#[trigger] plans[i], Some(parent), inside),
    ensures
        annotate_children(plans, parent, cfg, known, used) matches AnnotationProgress::Done(ps, _)
            ==> ps.len() == plans.len() && forall|i: int|
            0 <= i < ps.len() ==> respects_maximums(#[trigger] ps[i], cfg) && is_ready(ps[i], cfg)
                && stage_may_follow(ps[i], cfg) && (inside || !cfg.children_isolator_unions
                ==> reaches_no_union(ps[i], cfg)),
    decreases plans,
{
    if plans.len() > 0 {
        let front = plans.drop_last();
        assert forall|i: int|
            cfg.children_isolator_unions && 0 <= i < front.len() implies unions_stand_apart(
            #[trigger] front[i],
            Some(parent),
            inside,
        ) by {
            assert(front[i] == plans[i]);
        }
        lemma_annotate_children_respect(front, parent, cfg, known, used, inside);
        if let AnnotationProgress::Done(before, taken) = annotate_children(
            front,
            parent,
            cfg,
            known,
            used,
        ) {
            assert(plans.last() == plans[plans.len() - 1]);
            lemma_annotate_respects(
                plans.last(),
                Some(parent),
                cfg,
                false,
                known,
                taken,
                inside,
            );
        }
    }
}

/// In an annotated plan no node runs on more tasks than the maximum that was estimated for it, and a leaf
/// that nothing is known of runs on one. Since all the nodes of a stage run on the same number of tasks,
/// the maximum of any node holds for its whole stage.
pub proof fn annotated_plans_respect_maximums(plan: PlanView, cfg: PlannerConfig, known: Seq<usize>)
    requires
        cfg.children_isolator_unions ==> unions_stand_apart(plan, None, false),
    ensures
        annotate(plan, None, cfg, true, known, 0) matches AnnotationProgress::Done(a, _)
            ==> respects_maximums(a, cfg),
{
    lemma_annotate_respects(plan, None, cfg, true, known, 0, false);
}

} // verus!
