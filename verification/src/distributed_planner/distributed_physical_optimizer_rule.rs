use crate::distributed_planner::batch_coalescing_below_network_boundaries::{
    batch_coalescing_below_network_boundaries, batches_coalesced, BatchConfig,
};
use crate::distributed_planner::insert_broadcast::{
    broadcasts_inserted, insert_broadcast_execs, merging_node, new_merging_node, over, put_over,
};
use crate::distributed_planner::plan::{NodeKind, Partitioning, Plan, PlanView};
use crate::distributed_planner::plan_annotator::{
    annotate, annotate_plan, annotated_views, AnnotatedPlan, AnnotatedView,
    AnnotationError, AnnotationOutcome, AnnotationProgress, PlanOrNetworkBoundary,
    PlanOrNetworkBoundaryView, PlannerConfig, ScaleFactor,
};
use crate::distributed_planner::staged_plan::{
    lemma_staged_children, planned_partitioning, staged_views, Boundary, DistributeError, StagedPlan,
    StagedView, Step, StepView,
};
use crate::distributed_planner::task_estimator::annotation_count;
use crate::execution_plans::network_broadcast::{
    broadcast_input, broadcast_partitioning, NetworkBroadcastExec,
};
use crate::execution_plans::network_shuffle::{
    respread, respread_first, shuffle_input, NetworkShuffleExec,
};
use crate::protobuf::distributed_codec::NetworkKind;
use vstd::prelude::*;

verus! {

/// What a plan becomes right below the network, so that `task_count` tasks can read from it: below a
/// shuffle its rows are spread for all of them, and below a broadcast it keeps its rows for all of
/// them.
pub open spec fn boundary_input(kind: NetworkKind, child: StagedView, task_count: usize) -> Result<
    StagedView,
    DistributeError,
> {
    match kind {
        NetworkKind::Shuffle => match shuffle_input(child, task_count) {
            Ok(input) => Ok(input),
            Err(e) => Err(DistributeError::Shuffle(e)),
        },
        NetworkKind::Broadcast => match broadcast_input(child, task_count) {
            Ok(input) => Ok(input),
            Err(e) => Err(DistributeError::Broadcast(e)),
        },
        NetworkKind::Coalesce => Ok(child),
    }
}

/// How the rows of a plan are spread on the other side of the network, as far as the plan tells.
pub open spec fn boundary_partitioning(kind: NetworkKind, child: StagedView) -> Partitioning {
    match kind {
        NetworkKind::Broadcast => broadcast_partitioning(child),
        _ => planned_partitioning(child),
    }
}

/// Cuts a plan into stages, numbered from `next` on in the order in which they are complete. Every
/// place where data crosses the network stands over a plan that its tasks can read from. Where there
/// is one task on both sides of the network, nothing has to cross it. What is returned beside
/// the plan is the next number.
pub open spec fn distributed(plan: AnnotatedView, next: usize) -> Result<
    (StagedView, usize),
    DistributeError,
>
    decreases plan,
{
    match all_distributed(plan.children, next) {
        Err(e) => Err(e),
        Ok((children, next)) => {
            let task_count = annotation_count(plan.task_count);
            match plan.plan_or_nb {
                PlanOrNetworkBoundaryView::Plan { node, task_idx_map } => Ok(
                    (
                        StagedView {
                            step: StepView::Node {
                                node,
                                task_idx_map,
                                leaf_tasks: if plan.children.len() == 0 {
                                    Some(task_count)
                                } else {
                                    None
                                },
                            },
                            children,
                        },
                        next,
                    ),
                ),
                boundary => if children.len() != 1 {
                    Err(DistributeError::ExpectedOneChild(children.len() as usize))
                } else {
                    let input_task_count = annotation_count(plan.children[0].task_count);
                    let kind = boundary_kind(boundary);
                    if task_count == 1 && input_task_count == 1 {
                        Ok((children[0], next))
                    } else {
                        match boundary_input(kind, children[0], task_count) {
                            Err(e) => Err(e),
                            Ok(input) => if next == usize::MAX {
                                Err(DistributeError::TooManyStages)
                            } else {
                                Ok(
                                    (
                                        StagedView {
                                            step: StepView::Boundary(
                                                Boundary {
                                                    kind,
                                                    num: next,
                                                    task_count,
                                                    input_task_count,
                                                    partitioning: boundary_partitioning(
                                                        kind,
                                                        children[0],
                                                    ),
                                                },
                                            ),
                                            children: seq![input],
                                        },
                                        (next + 1) as usize,
                                    ),
                                )
                            },
                        }
                    }
                },
            }
        },
    }
}

/// Cuts several plans into stages, one after the other.
pub open spec fn all_distributed(plans: Seq<AnnotatedView>, next: usize) -> Result<
    (Seq<StagedView>, usize),
    DistributeError,
>
    decreases plans,
{
    if plans.len() == 0 {
        Ok((Seq::empty(), next))
    } else {
        match all_distributed(plans.drop_last(), next) {
            Err(e) => Err(e),
            Ok((before, next)) => match distributed(plans.last(), next) {
                Err(e) => Err(e),
                Ok((last, next)) => Ok((before.push(last), next)),
            },
        }
    }
}

/// The way in which data crosses the network at a marked place.
pub open spec fn boundary_kind(boundary: PlanOrNetworkBoundaryView) -> NetworkKind {
    match boundary {
        PlanOrNetworkBoundaryView::Coalesce => NetworkKind::Coalesce,
        PlanOrNetworkBoundaryView::Broadcast => NetworkKind::Broadcast,
        _ => NetworkKind::Shuffle,
    }
}

proof fn lemma_annotated_children(plan: AnnotatedPlan)
    ensures
        plan@.children == annotated_views(plan.children@),
{
    assert(plan@.children =~= annotated_views(plan.children@));
}

proof fn lemma_distributed_prefix(plans: Seq<AnnotatedView>, next: usize, n: int)
    requires
        0 <= n <= plans.len(),
        all_distributed(plans.take(n), next) is Err,
    ensures
        all_distributed(plans, next) == all_distributed(plans.take(n), next),
    decreases plans.len() - n,
{
    if n == plans.len() {
        assert(plans.take(n) =~= plans);
    } else {
        assert(plans.take(n + 1).drop_last() =~= plans.take(n));
        lemma_distributed_prefix(plans, next, n + 1);
    }
}

proof fn lemma_distributed_len(plans: Seq<AnnotatedView>, next: usize)
    ensures
        all_distributed(plans, next) matches Ok((staged, _)) ==> staged.len() == plans.len(),
    decreases plans.len(),
{
    if plans.len() > 0 {
        lemma_distributed_len(plans.drop_last(), next);
    }
}

fn distribute_children(
    plans: Vec<AnnotatedPlan>,
    stage_id: usize,
    Ghost(views): Ghost<Seq<AnnotatedView>>,
) -> (result: Result<(Vec<StagedPlan>, usize), DistributeError>)
    requires
        views == annotated_views(plans@),
    ensures
        match result {
            Ok((staged, next)) => all_distributed(views, stage_id) == Ok::<_, DistributeError>(
                (staged_views(staged@), next),
            ),
            Err(e) => all_distributed(views, stage_id) == Err::<(Seq<StagedView>, usize), _>(e),
        },
    decreases views, 1int,
{
    let mut staged: Vec<StagedPlan> = Vec::new();
    let mut next: usize = stage_id;
    proof {
        assert(views.take(0) =~= Seq::empty());
        assert(staged_views(staged@) =~= Seq::empty());
    }
    for plan in it: plans
        invariant
            views == annotated_views(it.seq()),
            all_distributed(views.take(it.index() as int), stage_id) == Ok::<_, DistributeError>(
                (staged_views(staged@), next),
            ),
    {
        let ghost k = it.index() as int;
        let ghost view = plan@;
        proof {
            assert(view == views[k]);
            assert(views.take(k + 1).drop_last() =~= views.take(k));
            assert(views.take(k + 1).last() == view);
        }
        let ghost before = staged@;
        match distribute_node(plan, next, Ghost(view)) {
            Err(e) => {
                proof {
                    lemma_distributed_prefix(views, stage_id, k + 1);
                }
                return Err(e);
            },
            Ok((last, after)) => {
                staged.push(last);
                next = after;
                proof {
                    assert(staged_views(staged@) =~= staged_views(before).push(last@));
                }
            },
        }
    }
    proof {
        assert(views.take(views.len() as int) =~= views);
    }
    Ok((staged, next))
}

fn distribute_node(
    annotated_plan: AnnotatedPlan,
    stage_id: usize,
    Ghost(view): Ghost<AnnotatedView>,
) -> (result: Result<(StagedPlan, usize), DistributeError>)
    requires
        view == annotated_plan@,
    ensures
        match result {
            Ok((staged, next)) => distributed(view, stage_id) == Ok::<_, DistributeError>(
                (staged@, next),
            ),
            Err(e) => distributed(view, stage_id) == Err::<(StagedView, usize), _>(e),
        },
    decreases view, 0int,
{
    proof {
        lemma_annotated_children(annotated_plan);
        lemma_distributed_len(view.children, stage_id);
    }
    let task_count: usize = annotated_plan.task_count.as_usize();
    let n_children: usize = annotated_plan.children.len();
    let input_task_count: usize = if n_children > 0 {
        annotated_plan.children[0].task_count.as_usize()
    } else {
        1
    };
    let ghost below = view.children;
    let (mut children, next) = match distribute_children(
        annotated_plan.children,
        stage_id,
        Ghost(below),
    ) {
        Err(e) => {
            return Err(e);
        },
        Ok(staged) => staged,
    };
    let kind = match annotated_plan.plan_or_nb {
        PlanOrNetworkBoundary::Plan { node, task_idx_map } => {
            let leaf_tasks = if n_children == 0 {
                Some(task_count)
            } else {
                None
            };
            let staged = StagedPlan {
                step: Step::Node { node, task_idx_map, leaf_tasks },
                children,
            };
            proof {
                lemma_staged_children(staged);
            }
            return Ok((staged, next));
        },
        PlanOrNetworkBoundary::Shuffle => NetworkKind::Shuffle,
        PlanOrNetworkBoundary::Coalesce => NetworkKind::Coalesce,
        PlanOrNetworkBoundary::Broadcast => NetworkKind::Broadcast,
    };
    if n_children != 1 {
        return Err(DistributeError::ExpectedOneChild(n_children));
    }
    if task_count == 1 && input_task_count == 1 {
        return Ok((children.swap_remove(0), next));
    }
    let ghost staged_children = children@;
    let child = children.swap_remove(0);
    proof {
        assert(staged_views(staged_children)[0] == child@);
    }
    let (partitioning, input) = match place_boundary(
        kind,
        child,
        next,
        task_count,
        input_task_count,
    ) {
        Err(e) => {
            return Err(e);
        },
        Ok(placed) => placed,
    };
    if next == usize::MAX {
        return Err(DistributeError::TooManyStages);
    }
    let boundary = Boundary { kind, num: next, task_count, input_task_count, partitioning };
    let ghost input_view = input@;
    let mut children: Vec<StagedPlan> = Vec::new();
    children.push(input);
    let staged = StagedPlan { step: Step::Boundary(boundary), children };
    proof {
        lemma_staged_children(staged);
        assert(staged@.children =~= seq![input_view]);
    }
    Ok((staged, next + 1))
}

/// Makes a plan one that the tasks on the other side of the network can read from.
fn place_boundary(
    kind: NetworkKind,
    child: StagedPlan,
    num: usize,
    task_count: usize,
    input_task_count: usize,
) -> (result: Result<(Partitioning, StagedPlan), DistributeError>)
    ensures
        match boundary_input(kind, child@, task_count) {
            Err(e) => result == Err::<(Partitioning, StagedPlan), _>(e),
            Ok(expected) => result matches Ok((partitioning, input)) && partitioning
                == boundary_partitioning(kind, child@) && input@ == expected,
        },
{
    match kind {
        NetworkKind::Shuffle => match NetworkShuffleExec::try_new(
            child,
            num,
            task_count,
            input_task_count,
        ) {
            Err(e) => Err(DistributeError::Shuffle(e)),
            Ok(NetworkShuffleExec { partitioning, plan: Some(plan), .. }) => Ok(
                (partitioning, plan),
            ),
            Ok(_) => Err(DistributeError::ExpectedOneChild(0)),
        },
        NetworkKind::Broadcast => match NetworkBroadcastExec::try_new(
            child,
            num,
            task_count,
            input_task_count,
        ) {
            Err(e) => Err(DistributeError::Broadcast(e)),
            Ok(NetworkBroadcastExec { partitioning, plan: Some(plan), .. }) => Ok(
                (partitioning, plan),
            ),
            Ok(_) => Err(DistributeError::ExpectedOneChild(0)),
        },
        NetworkKind::Coalesce => {
            let partitioning = child.output_partitioning();
            Ok((partitioning, child))
        },
    }
}

/// Cuts an annotated plan into stages, numbered from `stage_id` on, and returns the next number
/// beside it.
pub fn distribute_plan(annotated_plan: AnnotatedPlan, stage_id: usize) -> (result: Result<
    (StagedPlan, usize),
    DistributeError,
>)
    ensures
        match result {
            Ok((staged, next)) => distributed(annotated_plan@, stage_id) == Ok::<
                _,
                DistributeError,
            >((staged@, next)),
            Err(e) => distributed(annotated_plan@, stage_id) == Err::<(StagedView, usize), _>(e),
        },
{
    let ghost view = annotated_plan@;
    distribute_node(annotated_plan, stage_id, Ghost(view))
}

/// Whether a plan holds a subquery that must be run before it.
pub open spec fn holds_scalar_subquery(plan: PlanView) -> bool
    decreases plan,
{
    plan.node.kind is ScalarSubquery || exists|i: int|
        0 <= i < plan.children.len() && holds_scalar_subquery(#[trigger] plan.children[i])
}

/// Tells whether a plan holds a subquery that must be run before it.
pub fn contains_scalar_subquery_exec(plan: &Plan) -> (found: bool)
    ensures
        found == holds_scalar_subquery(plan@),
    decreases *plan,
{
    if matches!(plan.node.kind, NodeKind::ScalarSubquery) {
        return true;
    }
    for i in 0..plan.children.len()
        invariant
            !(plan.node.kind is ScalarSubquery),
            forall|j: int|
                0 <= j < i ==> !holds_scalar_subquery((#[trigger] plan.children@[j])@),
    {
        if contains_scalar_subquery_exec(&plan.children[i]) {
            proof {
                assert(plan@.children[i as int] == plan.children@[i as int]@);
            }
            return true;
        }
    }
    proof {
        assert forall|j: int| 0 <= j < plan@.children.len() implies !holds_scalar_subquery(
            #[trigger] plan@.children[j],
        ) by {
            assert(plan@.children[j] == plan.children@[j]@);
        }
    }
    false
}

/// What the rule depends on besides the plan.
#[derive(Debug, Clone, Copy, PartialEq, Eq, Structural)]
pub struct OptimizerConfig {
    pub planner: PlannerConfig,
    pub batches: BatchConfig,
}

/// The outcome of the rule.
#[derive(Debug)]
pub enum OptimizerOutcome {
    /// The plan stays as it is.
    LeftAlone,
    /// The plan runs in stages.
    Distributed(StagedPlan),
    /// The task count of the next stage must be found: that of the stage below is `previous`, and the
    /// data grew by `factor` on its way through it.
    NeedsTaskCount { previous: usize, factor: ScaleFactor },
    NotAnnotated(AnnotationError),
    NotDistributed(DistributeError),
}

/// The plan that is cut into stages in place of the original: its result is one partition.
pub open spec fn prepared(original: PlanView, cfg: PlannerConfig) -> PlanView {
    broadcasts_inserted(
        if original.node.partitioning.count() > 1 {
            over(merging_node(), original)
        } else {
            original
        },
        cfg,
    )
}

/// Whether the rule leaves a plan alone without looking for stages: it runs in stages already, or
/// cannot be sent.
pub open spec fn is_exempt(plan: PlanView) -> bool {
    plan.node.kind is Distributed || holds_scalar_subquery(plan)
}

/// Whether `outcome` is the outcome of cutting an annotated plan into stages.
pub open spec fn is_staged(
    annotated: AnnotatedView,
    cfg: OptimizerConfig,
    outcome: OptimizerOutcome,
) -> bool {
    match distributed(annotated, 1) {
        Err(e) => outcome == OptimizerOutcome::NotDistributed(e),
        Ok((staged, next)) => if next == 1 {
            outcome is LeftAlone
        } else {
            match batches_coalesced(staged, cfg.batches) {
                Err(e) => outcome == OptimizerOutcome::NotDistributed(e),
                Ok(plan) => outcome matches OptimizerOutcome::Distributed(p) && p@ == plan,
            }
        },
    }
}

/// Whether `outcome` is the outcome of the rule.
pub open spec fn is_optimized(
    original: PlanView,
    cfg: OptimizerConfig,
    known: Seq<usize>,
    outcome: OptimizerOutcome,
) -> bool {
    if is_exempt(original) {
        outcome is LeftAlone
    } else {
        match annotate(prepared(original, cfg.planner), None, cfg.planner, true, known, 0) {
            AnnotationProgress::Failed(e) => outcome == OptimizerOutcome::NotAnnotated(e),
            AnnotationProgress::NeedsTaskCount { previous, factor } => outcome
                == OptimizerOutcome::NeedsTaskCount { previous, factor },
            AnnotationProgress::Done(annotated, _) => is_staged(annotated, cfg, outcome),
        }
    }
}

/// Cuts plans into stages that run on several workers.
#[derive(Debug, Clone, Copy, PartialEq, Eq, Structural)]
pub struct DistributedPhysicalOptimizerRule;

impl DistributedPhysicalOptimizerRule {
    /// Cuts a plan into stages, if more than one task has a use in it. `known` holds the task counts
    /// that have been found so far for the stages above network boundaries.
    pub fn optimize(&self, original: &Plan, cfg: &OptimizerConfig, known: &Vec<usize>) -> (outcome:
        OptimizerOutcome)
        ensures
            is_optimized(original@, *cfg, known@, outcome),
    {
        if matches!(original.node.kind, NodeKind::Distributed) {
            return OptimizerOutcome::LeftAlone;
        }
        if contains_scalar_subquery_exec(original) {
            return OptimizerOutcome::LeftAlone;
        }
        let mut plan = original.copy();
        if original.node.partitioning.partition_count() > 1 {
            plan = put_over(new_merging_node(), plan);
        }
        let plan = insert_broadcast_execs(plan, &cfg.planner);
        let annotated = match annotate_plan(&plan, &cfg.planner, known) {
            AnnotationOutcome::Failed(e) => {
                return OptimizerOutcome::NotAnnotated(e);
            },
            AnnotationOutcome::NeedsTaskCount { previous, factor } => {
                return OptimizerOutcome::NeedsTaskCount { previous, factor };
            },
            AnnotationOutcome::Done(annotated) => annotated,
        };
        let (staged, next) = match distribute_plan(annotated, 1) {
            Err(e) => {
                return OptimizerOutcome::NotDistributed(e);
            },
            Ok(staged) => staged,
        };
        if next == 1 {
            return OptimizerOutcome::LeftAlone;
        }
        match batch_coalescing_below_network_boundaries(staged, &cfg.batches) {
            Err(e) => OptimizerOutcome::NotDistributed(e),
            Ok(plan) => OptimizerOutcome::Distributed(plan),
        }
    }

    /// The name of the rule.
    pub fn name(&self) -> (name: &'static str)
        ensures
            name@ == "DistributedPhysicalOptimizer"@,
    {
        "DistributedPhysicalOptimizer"
    }

    /// The rule keeps the columns of the plan, and says so.
    pub fn schema_check(&self) -> (check: bool)
        ensures
            check,
    {
        true
    }
}

/// The numbers of the stages of a plan, in the order in which they are complete.
pub open spec fn stage_nums(plan: StagedView) -> Seq<usize>
    decreases plan,
{
    let below = all_stage_nums(plan.children);
    match plan.step {
        StepView::Boundary(boundary) => below.push(boundary.num),
        _ => below,
    }
}

/// The numbers of the stages of some plans, in the order in which they are complete.
pub open spec fn all_stage_nums(plans: Seq<StagedView>) -> Seq<usize>
    decreases plans,
{
    if plans.len() == 0 {
        Seq::empty()
    } else {
        all_stage_nums(plans.drop_last()) + stage_nums(plans.last())
    }
}

proof fn lemma_respread_keeps_stages(plan: StagedView, task_count: usize)
    ensures
        respread(plan, task_count) matches Ok(Some(p)) ==> stage_nums(p) == stage_nums(plan) && (
        crossings_are_needed(plan) ==> crossings_are_needed(p)),
    decreases plan, 0int,
{
    lemma_respread_first_keeps_stages(plan.children, task_count);
}

proof fn lemma_respread_first_keeps_stages(plans: Seq<StagedView>, task_count: usize)
    ensures
        respread_first(plans, task_count) matches Ok(Some(ps)) ==> {
            &&& ps.len() == plans.len()
            &&& all_stage_nums(ps) == all_stage_nums(plans)
            &&& forall|i: int|
                0 <= i < ps.len() ==> (crossings_are_needed(plans[i]) ==> crossings_are_needed(
                    #[trigger] ps[i],
                ))
        },
    decreases plans, 1int,
{
    if plans.len() > 0 {
        let front = plans.drop_last();
        lemma_respread_first_keeps_stages(front, task_count);
        lemma_respread_keeps_stages(plans.last(), task_count);
        if let Ok(Some(ps)) = respread_first(plans, task_count) {
            match respread_first(front, task_count) {
                Ok(Some(before)) => {
                    assert(ps.drop_last() =~= before);
                },
                _ => {
                    assert(ps.drop_last() =~= front);
                },
            }
        }
    }
}

proof fn lemma_input_keeps_stages(kind: NetworkKind, child: StagedView, task_count: usize)
    ensures
        boundary_input(kind, child, task_count) matches Ok(input) ==> stage_nums(input)
            == stage_nums(child) && (crossings_are_needed(child) ==> crossings_are_needed(input)),
{
    lemma_respread_keeps_stages(child, task_count);
}

/// The stages of a plan are numbered without gaps in the order in which they are complete: a stage
/// has a greater number than those that it reads from, and no number is used twice.
pub proof fn stages_are_numbered_in_order(plan: AnnotatedView, next: usize)
    ensures
        distributed(plan, next) matches Ok((staged, after)) ==> after >= next && stage_nums(staged)
            == Seq::new((after - next) as nat, |i: int| (next + i) as usize),
    decreases plan, 0int,
{
    lemma_all_numbered(plan.children, next);
    lemma_distributed_len(plan.children, next);
    match all_distributed(plan.children, next) {
        Err(_) => {},
        Ok((children, mid)) => {
            match distributed(plan, next) {
                Err(_) => {},
                Ok((staged, after)) => {
                    if children.len() == 1 {
                        assert(children.drop_last() =~= Seq::empty());
                        assert(all_stage_nums(children.drop_last()) =~= Seq::empty());
                        assert(all_stage_nums(children) =~= stage_nums(children[0]));
                        let task_count = annotation_count(plan.task_count);
                        let input_task_count = annotation_count(plan.children[0].task_count);
                        if !(plan.plan_or_nb is Plan) && !(task_count == 1 && input_task_count
                            == 1) {
                            let kind = boundary_kind(plan.plan_or_nb);
                            lemma_input_keeps_stages(kind, children[0], task_count);
                            let input = boundary_input(kind, children[0], task_count)->Ok_0;
                            assert(staged.children == seq![input]);
                            assert(seq![input].drop_last() =~= Seq::empty());
                            assert(all_stage_nums(Seq::empty()) =~= Seq::empty());
                            assert(all_stage_nums(seq![input]) =~= stage_nums(input));
                        }
                    }
                    assert(stage_nums(staged) =~= Seq::new(
                        (after - next) as nat,
                        |i: int| (next + i) as usize,
                    ));
                },
            }
        },
    }
}

proof fn lemma_all_numbered(plans: Seq<AnnotatedView>, next: usize)
    ensures
        all_distributed(plans, next) matches Ok((staged, after)) ==> after >= next
            && all_stage_nums(staged) == Seq::new(
            (after - next) as nat,
            |i: int| (next + i) as usize,
        ),
    decreases plans, 1int,
{
    if plans.len() == 0 {
        assert(all_stage_nums(Seq::empty()) =~= Seq::new(0, |i: int| (next + i) as usize));
    } else {
        lemma_all_numbered(plans.drop_last(), next);
        match all_distributed(plans.drop_last(), next) {
            Err(_) => {},
            Ok((before, mid)) => {
                stages_are_numbered_in_order(plans.last(), mid);
                match distributed(plans.last(), mid) {
                    Err(_) => {},
                    Ok((last, after)) => {
                        assert(before.push(last).drop_last() =~= before);
                        assert(all_stage_nums(before.push(last)) =~= Seq::new(
                            (after - next) as nat,
                            |i: int| (next + i) as usize,
                        ));
                    },
                }
            },
        }
    }
}

/// Whether data crosses the network only where there are several tasks on one of its sides.
pub open spec fn crossings_are_needed(plan: StagedView) -> bool
    decreases plan,
{
    &&& plan.step matches StepView::Boundary(b) ==> b.task_count != 1 || b.input_task_count != 1
    &&& forall|i: int|
        0 <= i < plan.children.len() ==> crossings_are_needed(#[trigger] plan.children[i])
}

/// Data crosses the network only where there are several tasks on one of its sides.
pub proof fn single_tasks_stay_together(plan: AnnotatedView, next: usize)
    ensures
        distributed(plan, next) matches Ok((staged, _)) ==> crossings_are_needed(staged),
    decreases plan, 0int,
{
    lemma_all_needed(plan.children, next);
    if let Ok((children, _)) = all_distributed(plan.children, next) {
        if !(plan.plan_or_nb is Plan) && children.len() == 1 {
            assert(crossings_are_needed(children[0]));
            lemma_input_keeps_stages(
                boundary_kind(plan.plan_or_nb),
                children[0],
                annotation_count(plan.task_count),
            );
        }
    }
}

proof fn lemma_all_needed(plans: Seq<AnnotatedView>, next: usize)
    ensures
        all_distributed(plans, next) matches Ok((staged, _)) ==> forall|i: int|
            0 <= i < staged.len() ==> crossings_are_needed(#[trigger] staged[i]),
    decreases plans, 1int,
{
    if plans.len() > 0 {
        lemma_all_needed(plans.drop_last(), next);
        match all_distributed(plans.drop_last(), next) {
            Err(_) => {},
            Ok((before, mid)) => {
                single_tasks_stay_together(plans.last(), mid);
            },
        }
    }
}

} // verus!
