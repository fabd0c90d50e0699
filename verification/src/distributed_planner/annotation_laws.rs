use crate::distributed_planner::plan::{Node, PlanView};
use crate::distributed_planner::plan_annotator::{
    annotate, annotate_children, annotate_parent, height, isolate_children, lemma_max_height,
    lemma_propagate_run_height, lemma_propagate_runs_height, max_height, merge_all, propagate,
    propagate_all, propagate_run, propagate_runs, runs_weight, settle_stage, spread_count,
    task_counts, AnnotatedView, AnnotationProgress, PlanOrNetworkBoundaryView, PlannerConfig,
    Spread,
};
use crate::distributed_planner::task_estimator::{annotation_count, TaskCountAnnotation};
use crate::execution_plans::children_isolator_union::{
    all_slots, lemma_run_start, lemma_slot_in_range, lemma_slots_len, lemma_slots_prefix,
    run_start, task_runs, total_count, trim_tasks, trimming_is_fair, Slot,
};
use vstd::prelude::*;

verus! {

/// A node whose children run in the same tasks as it does: any node of the plan but a union that
/// isolates its children.
pub open spec fn shares_tasks(plan: AnnotatedView) -> bool {
    plan.plan_or_nb matches PlanOrNetworkBoundaryView::Plan { node, .. }
        && !(node.kind is ChildrenIsolatorUnion)
}

/// A task count that a stage may be given.
pub open spec fn count_allowed(task_count: TaskCountAnnotation, cfg: PlannerConfig) -> bool {
    &&& annotation_count(task_count) <= cfg.max_tasks
    &&& cfg.children_isolator_unions ==> annotation_count(task_count) >= 1
}

/// Every stage of the plan has its final task count: it is an allowed one, and all the nodes
/// of the stage agree on it.
pub open spec fn stages_settled(plan: AnnotatedView, cfg: PlannerConfig) -> bool
    decreases plan,
{
    &&& count_allowed(plan.task_count, cfg)
    &&& all_settled(plan.children, cfg)
    &&& shares_tasks(plan) ==> forall|i: int|
        0 <= i < plan.children.len() ==> (#[trigger] plan.children[i]).task_count
            == plan.task_count
}

pub open spec fn all_settled(plans: Seq<AnnotatedView>, cfg: PlannerConfig) -> bool
    decreases plans,
{
    plans.len() == 0 || (all_settled(plans.drop_last(), cfg) && stages_settled(plans.last(), cfg))
}

/// Every stage has its final task count except the one that the plan is in.
pub open spec fn stages_pending(plan: AnnotatedView, cfg: PlannerConfig) -> bool
    decreases plan,
{
    if plan.plan_or_nb is Plan {
        count_allowed(plan.task_count, cfg) && all_pending(plan.children, cfg)
    } else {
        &&& cfg.children_isolator_unions ==> annotation_count(plan.task_count) >= 1
        &&& all_settled(plan.children, cfg)
    }
}

pub open spec fn all_pending(plans: Seq<AnnotatedView>, cfg: PlannerConfig) -> bool
    decreases plans,
{
    plans.len() == 0 || (all_pending(plans.drop_last(), cfg) && stages_pending(plans.last(), cfg))
}

proof fn lemma_all_settled(plans: Seq<AnnotatedView>, cfg: PlannerConfig)
    ensures
        all_settled(plans, cfg) == forall|i: int|
            0 <= i < plans.len() ==> stages_settled(#[trigger] plans[i], cfg),
    decreases plans.len(),
{
    if plans.len() > 0 {
        let front = plans.drop_last();
        lemma_all_settled(front, cfg);
        let n = plans.len() - 1;
        if all_settled(plans, cfg) {
            assert forall|i: int| 0 <= i < plans.len() implies stages_settled(
                #[trigger] plans[i],
                cfg,
            ) by {
                if i < n {
                    assert(stages_settled(front[i], cfg));
                }
            }
        }
        if forall|i: int| 0 <= i < plans.len() ==> stages_settled(#[trigger] plans[i], cfg) {
            assert forall|i: int| 0 <= i < front.len() implies stages_settled(
                #[trigger] front[i],
                cfg,
            ) by {
                assert(stages_settled(plans[i], cfg));
            }
            assert(stages_settled(plans[n], cfg));
        }
    }
}

proof fn lemma_all_pending(plans: Seq<AnnotatedView>, cfg: PlannerConfig)
    ensures
        all_pending(plans, cfg) == forall|i: int|
            0 <= i < plans.len() ==> stages_pending(#[trigger] plans[i], cfg),
    decreases plans.len(),
{
    if plans.len() > 0 {
        let front = plans.drop_last();
        lemma_all_pending(front, cfg);
        let n = plans.len() - 1;
        if all_pending(plans, cfg) {
            assert forall|i: int| 0 <= i < plans.len() implies stages_pending(
                #[trigger] plans[i],
                cfg,
            ) by {
                if i < n {
                    assert(stages_pending(front[i], cfg));
                }
            }
        }
        if forall|i: int| 0 <= i < plans.len() ==> stages_pending(#[trigger] plans[i], cfg) {
            assert forall|i: int| 0 <= i < front.len() implies stages_pending(
                #[trigger] front[i],
                cfg,
            ) by {
                assert(stages_pending(plans[i], cfg));
            }
            assert(stages_pending(plans[n], cfg));
        }
    }
}

proof fn lemma_settled_is_pending(plan: AnnotatedView, cfg: PlannerConfig)
    requires
        stages_settled(plan, cfg),
    ensures
        stages_pending(plan, cfg),
    decreases plan,
{
    if plan.plan_or_nb is Plan {
        lemma_all_settled_is_pending(plan.children, cfg);
    }
}

proof fn lemma_all_settled_is_pending(plans: Seq<AnnotatedView>, cfg: PlannerConfig)
    requires
        all_settled(plans, cfg),
    ensures
        all_pending(plans, cfg),
    decreases plans,
{
    if plans.len() > 0 {
        lemma_all_settled_is_pending(plans.drop_last(), cfg);
        lemma_settled_is_pending(plans.last(), cfg);
    }
}

proof fn lemma_trimmed_bound(counts: Seq<usize>, budget: nat, i: int)
    requires
        0 < budget <= total_count(counts),
        0 <= i < counts.len(),
    ensures
        trim_tasks(counts, (total_count(counts) - budget) as nat).len() == counts.len(),
        trim_tasks(counts, (total_count(counts) - budget) as nat)[i] <= budget,
        counts[i] >= 1 ==> trim_tasks(counts, (total_count(counts) - budget) as nat)[i] >= 1,
{
    let surplus = (total_count(counts) - budget) as nat;
    let trimmed = trim_tasks(counts, surplus);
    trimming_is_fair(counts, surplus);
    lemma_total_at_least(trimmed, i);
}

proof fn lemma_total_at_least(counts: Seq<usize>, i: int)
    requires
        0 <= i < counts.len(),
    ensures
        counts[i] <= total_count(counts),
    decreases counts.len(),
{
    if i < counts.len() - 1 {
        lemma_total_at_least(counts.drop_last(), i);
    }
}

/// The tasks that a child was cut into are at least one and at most the budget.
proof fn lemma_run_counts(counts: Seq<usize>, budget: usize, t: int, a: int)
    requires
        counts.len() <= usize::MAX,
        0 < budget <= total_count(counts),
        0 <= t < budget,
        0 <= a < task_runs(counts, budget as nat)[t].len(),
    ensures
        1 <= task_runs(counts, budget as nat)[t][a].1.task_count <= budget,
{
    let trimmed = trim_tasks(counts, (total_count(counts) - budget) as nat);
    trimming_is_fair(counts, (total_count(counts) - budget) as nat);
    lemma_slots_len(trimmed);
    let n = all_slots(trimmed).len();
    lemma_run_start(n, budget as nat, t);
    let slot = run_start(n, budget as nat, t) + a;
    lemma_slot_in_range(trimmed, slot);
    lemma_trimmed_bound(counts, budget as nat, all_slots(trimmed)[slot].0 as int);
}

/// The task that runs the given slot.
pub(crate) proof fn lemma_task_of_slot(total: nat, tasks: nat, slot: int, t: int) -> (task: int)
    requires
        tasks > 0,
        0 <= t <= tasks,
        0 <= slot < run_start(total, tasks, t),
    ensures
        0 <= task < t,
        run_start(total, tasks, task) <= slot < run_start(total, tasks, task + 1),
    decreases t,
{
    if t > 0 {
        lemma_run_start(total, tasks, t - 1);
        if slot < run_start(total, tasks, t - 1) {
            lemma_task_of_slot(total, tasks, slot, t - 1)
        } else {
            t - 1
        }
    } else {
        lemma_run_start(total, tasks, 0);
        0
    }
}

/// Every child that has a task is run by some task.
proof fn lemma_child_is_run(counts: Seq<usize>, budget: usize, i: int) -> (place: (int, int))
    requires
        counts.len() <= usize::MAX,
        0 < budget <= total_count(counts),
        0 <= i < counts.len(),
        counts[i] >= 1,
    ensures
        0 <= place.0 < budget,
        0 <= place.1 < task_runs(counts, budget as nat)[place.0].len(),
        task_runs(counts, budget as nat)[place.0][place.1].0 == i,
{
    let trimmed = trim_tasks(counts, (total_count(counts) - budget) as nat);
    trimming_is_fair(counts, (total_count(counts) - budget) as nat);
    lemma_trimmed_bound(counts, budget as nat, i);
    lemma_slots_len(trimmed);
    let slots = all_slots(trimmed);
    lemma_slots_prefix(trimmed, i);
    let slot = total_count(trimmed.take(i)) as int;
    assert(slots[total_count(trimmed.take(i)) + 0int].0 == i);
    lemma_run_start(slots.len(), budget as nat, 0);
    let task = lemma_task_of_slot(slots.len(), budget as nat, slot, budget as int);
    lemma_run_start(slots.len(), budget as nat, task);
    (task, slot - run_start(slots.len(), budget as nat, task))
}

proof fn lemma_propagate_settles(
    fuel: nat,
    plan: AnnotatedView,
    task_count: TaskCountAnnotation,
    cfg: PlannerConfig,
)
    requires
        height(plan) <= fuel,
        stages_pending(plan, cfg),
        count_allowed(task_count, cfg),
    ensures
        propagate(fuel, plan, task_count, cfg) matches Ok(p) ==> stages_settled(p, cfg)
            && p.task_count == task_count,
    decreases fuel, 0nat,
{
    let less = (fuel - 1) as nat;
    match plan.plan_or_nb {
        PlanOrNetworkBoundaryView::Broadcast => {
            if let TaskCountAnnotation::Maximum(max) = task_count {
                let spread = Spread::Capped(max);
                lemma_all_settled_is_pending(plan.children, cfg);
                assert forall|i: int| 0 <= i < plan.children.len() implies count_allowed(
                    spread_count(spread, #[trigger] plan.children[i]),
                    cfg,
                ) by {
                    lemma_all_settled(plan.children, cfg);
                    assert(stages_settled(plan.children[i], cfg));
                }
                lemma_propagate_all_settles(less, plan.children, spread, cfg);
            }
        },
        PlanOrNetworkBoundaryView::Plan { node, .. } => {
            if cfg.children_isolator_unions && node.kind is Union {
                if let Ok((runs, partition_count)) = isolate_children(
                    plan.children,
                    annotation_count(task_count),
                ) {
                    let counts = task_counts(plan.children);
                    let budget = annotation_count(task_count);
                    assert(runs == task_runs(counts, budget as nat));
                    lemma_all_pending(plan.children, cfg);
                    assert forall|i: int| 0 <= i < counts.len() implies #[trigger] counts[i]
                        >= 1 by {
                        assert(stages_pending(plan.children[i], cfg));
                    }
                    lemma_total_at_least_len(counts);
                    assert forall|t: int, a: int|
                        0 <= t < runs.len() && 0 <= a < runs[t].len() implies count_allowed(
                        TaskCountAnnotation::Maximum((#[trigger] runs[t][a]).1.task_count),
                        cfg,
                    ) by {
                        lemma_run_counts(counts, budget, t, a);
                    }
                    assert forall|i: int| 0 <= i < plan.children.len() implies height(
                        #[trigger] plan.children[i],
                    ) <= less by {
                        lemma_max_height(plan.children, i);
                    }
                    lemma_propagate_runs_settles(less, plan.children, runs, cfg);
                    if let Ok(children) = propagate_runs(less, plan.children, runs, cfg) {
                        lemma_all_pending(plan.children, cfg);
                        assert forall|i: int| 0 <= i < children.len() implies stages_settled(
                            #[trigger] children[i],
                            cfg,
                        ) by {
                            assert(counts[i] >= 1);
                            let (t, a) = lemma_child_is_run(counts, budget, i);
                            assert(is_run_in(runs, i)) by {
                                assert(runs[t][a].0 == i);
                            }
                        }
                        lemma_all_settled(children, cfg);
                    }
                }
            } else {
                lemma_propagate_all_settles(less, plan.children, Spread::Same(task_count), cfg);
            }
        },
        _ => {},
    }
}

/// Some task runs the given child.
pub open spec fn is_run_in(runs: Seq<Seq<Slot>>, child: int) -> bool {
    exists|t: int, a: int| 0 <= t < runs.len() && 0 <= a < runs[t].len() && #[trigger] runs[t][a].0
        == child
}

proof fn lemma_total_at_least_len(counts: Seq<usize>)
    requires
        forall|i: int| 0 <= i < counts.len() ==> #[trigger] counts[i] >= 1,
    ensures
        counts.len() <= total_count(counts),
    decreases counts.len(),
{
    if counts.len() > 0 {
        let front = counts.drop_last();
        assert forall|i: int| 0 <= i < front.len() implies #[trigger] front[i] >= 1 by {
            assert(counts[i] >= 1);
        }
        lemma_total_at_least_len(front);
        assert(counts[counts.len() - 1] >= 1);
    }
}

proof fn lemma_propagate_all_settles(
    fuel: nat,
    plans: Seq<AnnotatedView>,
    spread: Spread,
    cfg: PlannerConfig,
)
    requires
        max_height(plans) <= fuel,
        all_pending(plans, cfg),
        forall|i: int|
            0 <= i < plans.len() ==> count_allowed(
                spread_count(spread, #[trigger] plans[i]),
                cfg,
            ),
    ensures
        propagate_all(fuel, plans, spread, cfg) matches Ok(ps) ==> {
            &&& ps.len() == plans.len()
            &&& all_settled(ps, cfg)
            &&& forall|i: int|
                0 <= i < plans.len() ==> (#[trigger] ps[i]).task_count == spread_count(
                    spread,
                    plans[i],
                )
        },
    decreases fuel, plans.len() + 1,
{
    if plans.len() > 0 {
        let front = plans.drop_last();
        let n = plans.len() - 1;
        assert forall|i: int| 0 <= i < front.len() implies count_allowed(
            spread_count(spread, #[trigger] front[i]),
            cfg,
        ) by {
            assert(count_allowed(spread_count(spread, plans[i]), cfg));
        }
        assert(count_allowed(spread_count(spread, plans[n]), cfg));
        lemma_propagate_all_settles(fuel, front, spread, cfg);
        lemma_propagate_settles(fuel, plans.last(), spread_count(spread, plans.last()), cfg);
        if let Ok(ps) = propagate_all(fuel, plans, spread, cfg) {
            let fs = propagate_all(fuel, front, spread, cfg)->Ok_0;
            assert(ps.drop_last() =~= fs);
            assert forall|i: int| 0 <= i < plans.len() implies (#[trigger] ps[i]).task_count
                == spread_count(spread, plans[i]) by {
                if i < n {
                    assert(fs[i].task_count == spread_count(spread, front[i]));
                }
            }
        }
    }
}

proof fn lemma_propagate_run_settles(
    fuel: nat,
    plans: Seq<AnnotatedView>,
    run: Seq<Slot>,
    cfg: PlannerConfig,
)
    requires
        forall|i: int| 0 <= i < plans.len() ==> height(#[trigger] plans[i]) <= fuel,
        forall|i: int| 0 <= i < plans.len() ==> stages_pending(#[trigger] plans[i], cfg),
        forall|a: int|
            0 <= a < run.len() ==> count_allowed(
                TaskCountAnnotation::Maximum((#[trigger] run[a]).1.task_count),
                cfg,
            ),
    ensures
        propagate_run(fuel, plans, run, cfg) matches Ok(ps) ==> {
            &&& ps.len() == plans.len()
            &&& forall|i: int| 0 <= i < plans.len() ==> stages_pending(#[trigger] ps[i], cfg)
            &&& forall|i: int|
                0 <= i < plans.len() && stages_settled(plans[i], cfg) ==> stages_settled(
                    #[trigger] ps[i],
                    cfg,
                )
            &&& forall|a: int|
                0 <= a < run.len() && (#[trigger] run[a]).0 < plans.len() ==> stages_settled(
                    ps[run[a].0 as int],
                    cfg,
                )
        },
    decreases fuel, run.len() + 1,
{
    if run.len() > 0 {
        let front_run = run.drop_last();
        assert forall|a: int| 0 <= a < front_run.len() implies count_allowed(
            TaskCountAnnotation::Maximum((#[trigger] front_run[a]).1.task_count),
            cfg,
        ) by {
            assert(count_allowed(TaskCountAnnotation::Maximum(run[a].1.task_count), cfg));
        }
        lemma_propagate_run_settles(fuel, plans, front_run, cfg);
        lemma_propagate_run_height(fuel, plans, front_run, cfg);
        if let Ok(front) = propagate_run(fuel, plans, front_run, cfg) {
            let (child, task_ctx) = run.last();
            let last = run.len() - 1;
            assert(count_allowed(TaskCountAnnotation::Maximum(run[last].1.task_count), cfg));
            if child < front.len() {
                let c = child as int;
                assert(height(front[c]) == height(plans[c]));
                assert(stages_pending(front[c], cfg));
                lemma_propagate_settles(
                    fuel,
                    front[c],
                    TaskCountAnnotation::Maximum(task_ctx.task_count),
                    cfg,
                );
                if let Ok(ps) = propagate_run(fuel, plans, run, cfg) {
                    lemma_settled_is_pending(ps[c], cfg);
                    assert forall|i: int| 0 <= i < plans.len() implies stages_pending(
                        #[trigger] ps[i],
                        cfg,
                    ) by {
                        assert(stages_pending(front[i], cfg));
                    }
                    assert forall|i: int|
                        0 <= i < plans.len() && stages_settled(
                            plans[i],
                            cfg,
                        ) implies stages_settled(#[trigger] ps[i], cfg) by {
                        assert(stages_settled(front[i], cfg));
                    }
                    assert forall|a: int|
                        0 <= a < run.len() && (#[trigger] run[a]).0
                            < plans.len() implies stages_settled(ps[run[a].0 as int], cfg) by {
                        if a < last {
                            assert(front_run[a].0 == run[a].0);
                            assert(stages_settled(front[run[a].0 as int], cfg));
                        }
                    }
                }
            } else {
                if let Ok(ps) = propagate_run(fuel, plans, run, cfg) {
                    assert forall|a: int|
                        0 <= a < run.len() && (#[trigger] run[a]).0
                            < plans.len() implies stages_settled(ps[run[a].0 as int], cfg) by {
                        assert(front_run[a].0 == run[a].0);
                    }
                }
            }
        }
    }
}

proof fn lemma_propagate_runs_settles(
    fuel: nat,
    plans: Seq<AnnotatedView>,
    runs: Seq<Seq<Slot>>,
    cfg: PlannerConfig,
)
    requires
        forall|i: int| 0 <= i < plans.len() ==> height(#[trigger] plans[i]) <= fuel,
        forall|i: int| 0 <= i < plans.len() ==> stages_pending(#[trigger] plans[i], cfg),
        forall|t: int, a: int|
            0 <= t < runs.len() && 0 <= a < runs[t].len() ==> count_allowed(
                TaskCountAnnotation::Maximum((#[trigger] runs[t][a]).1.task_count),
                cfg,
            ),
    ensures
        propagate_runs(fuel, plans, runs, cfg) matches Ok(ps) ==> {
            &&& ps.len() == plans.len()
            &&& forall|i: int| 0 <= i < plans.len() ==> stages_pending(#[trigger] ps[i], cfg)
            &&& forall|i: int|
                0 <= i < plans.len() && is_run_in(runs, i) ==> stages_settled(
                    #[trigger] ps[i],
                    cfg,
                )
        },
    decreases fuel, runs_weight(runs),
{
    if runs.len() > 0 {
        let front_runs = runs.drop_last();
        let last = runs.len() - 1;
        assert forall|t: int, a: int|
            0 <= t < front_runs.len() && 0 <= a < front_runs[t].len() implies count_allowed(
            TaskCountAnnotation::Maximum((#[trigger] front_runs[t][a]).1.task_count),
            cfg,
        ) by {
            assert(count_allowed(TaskCountAnnotation::Maximum(runs[t][a].1.task_count), cfg));
        }
        lemma_propagate_runs_settles(fuel, plans, front_runs, cfg);
        lemma_propagate_runs_height(fuel, plans, front_runs, cfg);
        if let Ok(front) = propagate_runs(fuel, plans, front_runs, cfg) {
            let run = runs.last();
            assert forall|i: int| 0 <= i < front.len() implies height(#[trigger] front[i])
                <= fuel by {
                assert(height(front[i]) == height(plans[i]));
                assert(height(plans[i]) <= fuel);
            }
            assert forall|a: int| 0 <= a < run.len() implies count_allowed(
                TaskCountAnnotation::Maximum((#[trigger] run[a]).1.task_count),
                cfg,
            ) by {
                assert(count_allowed(
                    TaskCountAnnotation::Maximum(runs[last][a].1.task_count),
                    cfg,
                ));
            }
            lemma_propagate_run_settles(fuel, front, run, cfg);
            if let Ok(ps) = propagate_runs(fuel, plans, runs, cfg) {
                assert forall|i: int| 0 <= i < plans.len() && is_run_in(runs, i) implies
                    stages_settled(#[trigger] ps[i], cfg) by {
                    let (t, a) = choose|t: int, a: int|
                        0 <= t < runs.len() && 0 <= a < runs[t].len() && #[trigger] runs[t][a].0
                            == i;
                    if t < last {
                        assert(front_runs[t][a].0 == i);
                        assert(is_run_in(front_runs, i));
                        assert(stages_settled(front[i], cfg));
                    } else {
                        assert(run[a].0 == i);
                    }
                }
            }
        }
    }
}

/// Every estimation in the plan asks for at least one task.
pub open spec fn estimations_positive(plan: PlanView) -> bool
    decreases plan,
{
    &&& plan.node.estimation matches Some(e) ==> annotation_count(e) >= 1
    &&& all_estimations_positive(plan.children)
}

pub open spec fn all_estimations_positive(plans: Seq<PlanView>) -> bool
    decreases plans,
{
    plans.len() == 0 || (all_estimations_positive(plans.drop_last()) && estimations_positive(
        plans.last(),
    ))
}

proof fn lemma_merge_positive(own: TaskCountAnnotation, children: Seq<AnnotatedView>)
    requires
        annotation_count(own) >= 1,
        forall|i: int|
            0 <= i < children.len() ==> annotation_count((#[trigger] children[i]).task_count) >= 1,
    ensures
        annotation_count(merge_all(own, children)) >= 1,
    decreases children.len(),
{
    if children.len() > 0 {
        let front = children.drop_last();
        assert forall|i: int| 0 <= i < front.len() implies annotation_count(
            (#[trigger] front[i]).task_count,
        ) >= 1 by {
            assert(annotation_count(children[i].task_count) >= 1);
        }
        lemma_merge_positive(own, front);
        assert(annotation_count(children[children.len() - 1].task_count) >= 1);
    }
}

proof fn lemma_parent_allowed(plan: PlanView, children: Seq<AnnotatedView>, cfg: PlannerConfig)
    requires
        cfg.max_tasks >= 1,
        children.len() > 0,
        cfg.children_isolator_unions ==> (plan.node.estimation matches Some(e)
            ==> annotation_count(e) >= 1),
        all_pending(children, cfg),
        cfg.children_isolator_unions && plan.node.kind is Union ==> total_count(
            task_counts(children),
        ) <= usize::MAX,
    ensures
        count_allowed(annotate_parent(plan, children, cfg).task_count, cfg),
        stages_pending(annotate_parent(plan, children, cfg), cfg),
{
    if cfg.children_isolator_unions {
        lemma_all_pending(children, cfg);
        let counts = task_counts(children);
        assert forall|i: int| 0 <= i < children.len() implies annotation_count(
            (#[trigger] children[i]).task_count,
        ) >= 1 by {
            assert(stages_pending(children[i], cfg));
        }
        assert forall|i: int| 0 <= i < counts.len() implies #[trigger] counts[i] >= 1 by {
            assert(annotation_count(children[i].task_count) >= 1);
        }
        lemma_total_at_least_len(counts);
        let own = match plan.node.estimation {
            Some(estimation) => estimation,
            None => TaskCountAnnotation::Desired(1),
        };
        lemma_merge_positive(own, children);
    }
}

proof fn lemma_annotate_pending(
    plan: PlanView,
    parent: Option<Node>,
    cfg: PlannerConfig,
    root: bool,
    known: Seq<usize>,
    used: nat,
)
    requires
        cfg.max_tasks >= 1,
        cfg.children_isolator_unions ==> estimations_positive(plan),
        cfg.children_isolator_unions ==> forall|i: int|
            0 <= i < known.len() ==> #[trigger] known[i] >= 1,
    ensures
        annotate(plan, parent, cfg, root, known, used) matches AnnotationProgress::Done(a, _) ==> {
            &&& stages_pending(a, cfg)
            &&& root && a.plan_or_nb is Plan ==> stages_settled(a, cfg)
        },
    decreases plan,
{
    if plan.children.len() > 0 {
        lemma_annotate_children_pending(plan.children, plan.node, cfg, known, used);
        if let AnnotationProgress::Done(children, taken) = annotate_children(
            plan.children,
            plan.node,
            cfg,
            known,
            used,
        ) {
            if !(cfg.children_isolator_unions && plan.node.kind is Union && total_count(
                task_counts(children),
            ) > usize::MAX) {
                lemma_parent_allowed(plan, children, cfg);
                let annotated = annotate_parent(plan, children, cfg);
                lemma_propagate_settles(height(annotated), annotated, annotated.task_count, cfg);
                if let Ok(below) = settle_stage(annotated, cfg) {
                    lemma_settled_is_pending(below, cfg);
                    lemma_all_settled(seq![below], cfg);
                }
            }
        }
    }
}

proof fn lemma_annotate_children_pending(
    plans: Seq<PlanView>,
    parent: Node,
    cfg: PlannerConfig,
    known: Seq<usize>,
    used: nat,
)
    requires
        cfg.max_tasks >= 1,
        cfg.children_isolator_unions ==> all_estimations_positive(plans),
        cfg.children_isolator_unions ==> forall|i: int|
            0 <= i < known.len() ==> #[trigger] known[i] >= 1,
    ensures
        annotate_children(plans, parent, cfg, known, used) matches AnnotationProgress::Done(
            annotated,
            _,
        ) ==> annotated.len() == plans.len() && all_pending(annotated, cfg),
    decreases plans,
{
    if plans.len() > 0 {
        lemma_annotate_children_pending(plans.drop_last(), parent, cfg, known, used);
        if let AnnotationProgress::Done(front, taken) = annotate_children(
            plans.drop_last(),
            parent,
            cfg,
            known,
            used,
        ) {
            lemma_annotate_pending(plans.last(), Some(parent), cfg, false, known, taken);
            if let AnnotationProgress::Done(all, _) = annotate_children(
                plans,
                parent,
                cfg,
                known,
                used,
            ) {
                assert(all.drop_last() =~= front);
            }
        }
    }
}

/// In an annotated plan all the nodes of a stage agree on its task count, and no stage runs on
/// more than the allowed number of tasks. The only node that may ask for more is a network
/// boundary at the very top, which no stage of the plan contains.
pub proof fn annotated_stages_agree(plan: PlanView, cfg: PlannerConfig, known: Seq<usize>)
    requires
        cfg.max_tasks >= 1,
        cfg.children_isolator_unions ==> estimations_positive(plan),
        cfg.children_isolator_unions ==> forall|i: int|
            0 <= i < known.len() ==> #[trigger] known[i] >= 1,
    ensures
        annotate(plan, None, cfg, true, known, 0) matches AnnotationProgress::Done(a, _) ==> {
            if a.plan_or_nb is Plan {
                stages_settled(a, cfg)
            } else {
                all_settled(a.children, cfg)
            }
        },
{
    lemma_annotate_pending(plan, None, cfg, true, known, 0);
}

/// The nodes of a plan and how they hang together, without network boundaries.
#[verifier::ext_equal]
pub struct Shape {
    pub id: Option<usize>,
    pub children: Seq<Shape>,
}

pub open spec fn plan_shape(plan: PlanView) -> Shape
    decreases plan,
{
    Shape { id: plan.node.id, children: plan_shapes(plan.children) }
}

pub open spec fn plan_shapes(plans: Seq<PlanView>) -> Seq<Shape>
    decreases plans,
{
    if plans.len() == 0 {
        Seq::empty()
    } else {
        plan_shapes(plans.drop_last()).push(plan_shape(plans.last()))
    }
}

pub open spec fn annotated_shape(plan: AnnotatedView) -> Shape
    decreases plan,
{
    match plan.plan_or_nb {
        PlanOrNetworkBoundaryView::Plan { node, .. } => Shape {
            id: node.id,
            children: annotated_shapes(plan.children),
        },
        _ => if plan.children.len() == 1 {
            annotated_shape(plan.children[0])
        } else {
            Shape { id: None, children: annotated_shapes(plan.children) }
        },
    }
}

pub open spec fn annotated_shapes(plans: Seq<AnnotatedView>) -> Seq<Shape>
    decreases plans,
{
    if plans.len() == 0 {
        Seq::empty()
    } else {
        annotated_shapes(plans.drop_last()).push(annotated_shape(plans.last()))
    }
}

proof fn lemma_shapes_pointwise(a: Seq<AnnotatedView>, b: Seq<AnnotatedView>)
    requires
        a.len() == b.len(),
        forall|i: int|
            0 <= i < a.len() ==> annotated_shape(#[trigger] a[i]) == annotated_shape(b[i]),
    ensures
        annotated_shapes(a) == annotated_shapes(b),
    decreases a.len(),
{
    if a.len() > 0 {
        let n = a.len() - 1;
        assert forall|i: int| 0 <= i < n implies annotated_shape(#[trigger] a.drop_last()[i])
            == annotated_shape(b.drop_last()[i]) by {
            assert(annotated_shape(a[i]) == annotated_shape(b[i]));
        }
        lemma_shapes_pointwise(a.drop_last(), b.drop_last());
        assert(annotated_shape(a[n]) == annotated_shape(b[n]));
    }
}

proof fn lemma_propagate_shape(
    fuel: nat,
    plan: AnnotatedView,
    task_count: TaskCountAnnotation,
    cfg: PlannerConfig,
)
    ensures
        propagate(fuel, plan, task_count, cfg) matches Ok(p) ==> annotated_shape(p)
            == annotated_shape(plan),
    decreases fuel, 0nat,
{
    if fuel > 0 {
        let less = (fuel - 1) as nat;
        match plan.plan_or_nb {
            PlanOrNetworkBoundaryView::Broadcast => {
                if let TaskCountAnnotation::Maximum(max) = task_count {
                    lemma_propagate_all_shape(less, plan.children, Spread::Capped(max), cfg);
                    if let Ok(children) = propagate_all(
                        less,
                        plan.children,
                        Spread::Capped(max),
                        cfg,
                    ) {
                        lemma_shapes_pointwise(children, plan.children);
                        if plan.children.len() == 1 {
                            assert(annotated_shape(children[0]) == annotated_shape(
                                plan.children[0],
                            ));
                        }
                    }
                }
            },
            PlanOrNetworkBoundaryView::Plan { node, .. } => {
                if cfg.children_isolator_unions && node.kind is Union {
                    if let Ok((runs, partition_count)) = isolate_children(
                        plan.children,
                        annotation_count(task_count),
                    ) {
                        lemma_propagate_runs_shape(less, plan.children, runs, cfg);
                        if let Ok(children) = propagate_runs(less, plan.children, runs, cfg) {
                            lemma_shapes_pointwise(children, plan.children);
                        }
                    }
                } else {
                    lemma_propagate_all_shape(less, plan.children, Spread::Same(task_count), cfg);
                    if let Ok(children) = propagate_all(
                        less,
                        plan.children,
                        Spread::Same(task_count),
                        cfg,
                    ) {
                        lemma_shapes_pointwise(children, plan.children);
                    }
                }
            },
            _ => {},
        }
    }
}

proof fn lemma_propagate_all_shape(
    fuel: nat,
    plans: Seq<AnnotatedView>,
    spread: Spread,
    cfg: PlannerConfig,
)
    ensures
        propagate_all(fuel, plans, spread, cfg) matches Ok(ps) ==> ps.len() == plans.len()
            && forall|i: int|
            0 <= i < plans.len() ==> annotated_shape(#[trigger] ps[i]) == annotated_shape(
                plans[i],
            ),
    decreases fuel, plans.len() + 1,
{
    if plans.len() > 0 {
        lemma_propagate_all_shape(fuel, plans.drop_last(), spread, cfg);
        lemma_propagate_shape(fuel, plans.last(), spread_count(spread, plans.last()), cfg);
        if let Ok(ps) = propagate_all(fuel, plans, spread, cfg) {
            let front = propagate_all(fuel, plans.drop_last(), spread, cfg)->Ok_0;
            assert forall|i: int| 0 <= i < plans.len() implies annotated_shape(#[trigger] ps[i])
                == annotated_shape(plans[i]) by {
                if i < plans.len() - 1 {
                    assert(annotated_shape(front[i]) == annotated_shape(plans.drop_last()[i]));
                }
            }
        }
    }
}

proof fn lemma_propagate_run_shape(
    fuel: nat,
    plans: Seq<AnnotatedView>,
    run: Seq<Slot>,
    cfg: PlannerConfig,
)
    ensures
        propagate_run(fuel, plans, run, cfg) matches Ok(ps) ==> ps.len() == plans.len()
            && forall|i: int|
            0 <= i < plans.len() ==> annotated_shape(#[trigger] ps[i]) == annotated_shape(
                plans[i],
            ),
    decreases fuel, run.len() + 1,
{
    if run.len() > 0 {
        lemma_propagate_run_shape(fuel, plans, run.drop_last(), cfg);
        if let Ok(front) = propagate_run(fuel, plans, run.drop_last(), cfg) {
            let (child, task_ctx) = run.last();
            if child < front.len() {
                lemma_propagate_shape(
                    fuel,
                    front[child as int],
                    TaskCountAnnotation::Maximum(task_ctx.task_count),
                    cfg,
                );
                if let Ok(ps) = propagate_run(fuel, plans, run, cfg) {
                    assert forall|i: int| 0 <= i < plans.len() implies annotated_shape(
                        #[trigger] ps[i],
                    ) == annotated_shape(plans[i]) by {
                        assert(annotated_shape(front[i]) == annotated_shape(plans[i]));
                    }
                }
            }
        }
    }
}

proof fn lemma_propagate_runs_shape(
    fuel: nat,
    plans: Seq<AnnotatedView>,
    runs: Seq<Seq<Slot>>,
    cfg: PlannerConfig,
)
    ensures
        propagate_runs(fuel, plans, runs, cfg) matches Ok(ps) ==> ps.len() == plans.len()
            && forall|i: int|
            0 <= i < plans.len() ==> annotated_shape(#[trigger] ps[i]) == annotated_shape(
                plans[i],
            ),
    decreases fuel, runs_weight(runs),
{
    if runs.len() > 0 {
        lemma_propagate_runs_shape(fuel, plans, runs.drop_last(), cfg);
        if let Ok(front) = propagate_runs(fuel, plans, runs.drop_last(), cfg) {
            lemma_propagate_run_shape(fuel, front, runs.last(), cfg);
            if let Ok(ps) = propagate_runs(fuel, plans, runs, cfg) {
                assert forall|i: int| 0 <= i < plans.len() implies annotated_shape(
                    #[trigger] ps[i],
                ) == annotated_shape(plans[i]) by {
                    assert(annotated_shape(front[i]) == annotated_shape(plans[i]));
                }
            }
        }
    }
}

/// Annotating a plan marks where data crosses the network and changes nothing else: without the
/// marks, the annotated plan has the same nodes in the same places.
pub proof fn annotation_keeps_the_plan(
    plan: PlanView,
    parent: Option<Node>,
    cfg: PlannerConfig,
    root: bool,
    known: Seq<usize>,
    used: nat,
)
    ensures
        annotate(plan, parent, cfg, root, known, used) matches AnnotationProgress::Done(a, _)
            ==> annotated_shape(a) == plan_shape(plan),
    decreases plan,
{
    if plan.children.len() == 0 {
        assert(annotated_shapes(Seq::empty()) =~= plan_shapes(plan.children));
    } else {
        lemma_annotate_children_shape(plan.children, plan.node, cfg, known, used);
        if let AnnotationProgress::Done(children, taken) = annotate_children(
            plan.children,
            plan.node,
            cfg,
            known,
            used,
        ) {
            let annotated = annotate_parent(plan, children, cfg);
            lemma_propagate_shape(height(annotated), annotated, annotated.task_count, cfg);
        }
    }
}

proof fn lemma_annotate_children_shape(
    plans: Seq<PlanView>,
    parent: Node,
    cfg: PlannerConfig,
    known: Seq<usize>,
    used: nat,
)
    ensures
        annotate_children(plans, parent, cfg, known, used) matches AnnotationProgress::Done(
            annotated,
            _,
        ) ==> annotated_shapes(annotated) == plan_shapes(plans),
    decreases plans,
{
    if plans.len() > 0 {
        lemma_annotate_children_shape(plans.drop_last(), parent, cfg, known, used);
        if let AnnotationProgress::Done(front, taken) = annotate_children(
            plans.drop_last(),
            parent,
            cfg,
            known,
            used,
        ) {
            annotation_keeps_the_plan(plans.last(), Some(parent), cfg, false, known, taken);
            if let AnnotationProgress::Done(all, _) = annotate_children(
                plans,
                parent,
                cfg,
                known,
                used,
            ) {
                assert(all.drop_last() =~= front);
            }
        }
    }
}

} // verus!
