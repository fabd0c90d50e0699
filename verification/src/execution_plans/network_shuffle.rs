use crate::distributed_planner::plan::{Node, NodeKind, Partitioning, StageRef};
use crate::distributed_planner::staged_plan::{
    lemma_staged_children, planned_partitioning, staged_views, step_kind, StagedPlan, StagedView,
    Step, StepKind, StepView,
};
use crate::execution_plans::partition_range::{
    partition_request, request, scale_partitioning, scaled, PartitionRequest,
};
use crate::text::{decimal, push_usize};
use vstd::prelude::*;

verus! {

/// Why a plan cannot be shuffled.
#[derive(Debug, Clone, Copy, PartialEq, Eq, Structural)]
pub enum ShuffleError {
    InputNotHashPartitioned,
    /// A node on the way down does not pass on rows that are spread by a hash.
    NodeNotHashPartitioned(StepKind),
    /// The node that spreads the rows has this many children.
    ExpectedOneChild(usize),
    /// The partitions for all the tasks are too many to count.
    TooManyPartitions,
}

impl ShuffleError {
    /// The text of the error about how rows are spread. `name` is the name of the node that is found at
    /// fault.
    pub fn message(&self, name: &str) -> (text: Option<String>)
        ensures
            match *self {
                ShuffleError::InputNotHashPartitioned => text matches Some(t) && t@
                    == "NetworkShuffleExec input must be hash partitioned"@,
                ShuffleError::NodeNotHashPartitioned(_) => text matches Some(t) && t@
                    == "NetworkShuffleExec input must be hash partitioned, but "@ + name@
                    + " is not"@,
                _ => text is None,
            },
    {
        match self {
            ShuffleError::InputNotHashPartitioned => Some(
                "NetworkShuffleExec input must be hash partitioned".to_owned(),
            ),
            ShuffleError::NodeNotHashPartitioned(_) => {
                let mut text = String::new();
                text.push_str("NetworkShuffleExec input must be hash partitioned, but ");
                text.push_str(name);
                text.push_str(" is not");
                proof {
                    assert(text@ =~= "NetworkShuffleExec input must be hash partitioned, but "@
                        + name@ + " is not"@);
                }
                Some(text)
            },
            _ => None,
        }
    }
}

/// The node that spreads rows, if the step is one.
pub open spec fn repartition_of(step: StepView) -> Option<Node> {
    match step {
        StepView::Node { node, .. } => if node.kind is Repartition {
            Some(node)
        } else {
            None
        },
        _ => None,
    }
}

/// The same step with a node that spreads rows over `factor` times as many partitions.
pub open spec fn scaled_step(step: StepView, factor: usize) -> StepView {
    match step {
        StepView::Node { node, task_idx_map, leaf_tasks } => StepView::Node {
            node: Node { partitioning: scaled(node.partitioning, factor), ..node },
            task_idx_map,
            leaf_tasks,
        },
        _ => step,
    }
}

/// What a plan becomes when the first node that spreads rows, from the top down, spreads them for
/// `task_count` tasks. Until it is found every node must pass on rows that are spread by a hash. Where
/// there is no such node, nothing changes.
pub open spec fn respread(plan: StagedView, task_count: usize) -> Result<
    Option<StagedView>,
    ShuffleError,
>
    decreases plan,
{
    match repartition_of(plan.step) {
        Some(node) => if plan.children.len() != 1 {
            Err(ShuffleError::ExpectedOneChild(plan.children.len() as usize))
        } else if node.partitioning.count() * task_count > usize::MAX {
            Err(ShuffleError::TooManyPartitions)
        } else {
            Ok(
                Some(
                    StagedView {
                        step: scaled_step(plan.step, task_count),
                        children: plan.children,
                    },
                ),
            )
        },
        None => if planned_partitioning(plan) is Hash {
            match respread_first(plan.children, task_count) {
                Err(e) => Err(e),
                Ok(None) => Ok(None),
                Ok(Some(children)) => Ok(Some(StagedView { step: plan.step, children })),
            }
        } else {
            Err(ShuffleError::NodeNotHashPartitioned(step_kind(plan.step)))
        },
    }
}

/// What several plans become when one after the other is looked at, until one changes.
pub open spec fn respread_first(plans: Seq<StagedView>, task_count: usize) -> Result<
    Option<Seq<StagedView>>,
    ShuffleError,
>
    decreases plans,
{
    if plans.len() == 0 {
        Ok(None)
    } else {
        match respread_first(plans.drop_last(), task_count) {
            Err(e) => Err(e),
            Ok(Some(before)) => Ok(Some(before.push(plans.last()))),
            Ok(None) => match respread(plans.last(), task_count) {
                Err(e) => Err(e),
                Ok(Some(last)) => Ok(Some(plans.drop_last().push(last))),
                Ok(None) => Ok(None),
            },
        }
    }
}

/// What a plan becomes below a shuffle to `task_count` tasks: its rows are spread by a hash, and for
/// all those tasks.
pub open spec fn shuffle_input(input: StagedView, task_count: usize) -> Result<
    StagedView,
    ShuffleError,
> {
    if !(planned_partitioning(input) is Hash) {
        Err(ShuffleError::InputNotHashPartitioned)
    } else {
        match respread(input, task_count) {
            Err(e) => Err(e),
            Ok(Some(plan)) => Ok(plan),
            Ok(None) => Ok(input),
        }
    }
}

proof fn lemma_respread_prefix(plans: Seq<StagedView>, task_count: usize, n: int)
    requires
        0 <= n <= plans.len(),
        respread_first(plans.take(n), task_count) is Err,
    ensures
        respread_first(plans, task_count) == respread_first(plans.take(n), task_count),
    decreases plans.len() - n,
{
    if n == plans.len() {
        assert(plans.take(n) =~= plans);
    } else {
        assert(plans.take(n + 1).drop_last() =~= plans.take(n));
        lemma_respread_prefix(plans, task_count, n + 1);
    }
}

fn respread_children(
    plans: Vec<StagedPlan>,
    task_count: usize,
    Ghost(views): Ghost<Seq<StagedView>>,
) -> (result: Result<(Vec<StagedPlan>, bool), ShuffleError>)
    requires
        views == staged_views(plans@),
    ensures
        match (result, respread_first(views, task_count)) {
            (Err(e), Err(expected)) => e == expected,
            (Ok((plans, true)), Ok(Some(expected))) => staged_views(plans@) == expected,
            (Ok((plans, false)), Ok(None)) => staged_views(plans@) == views,
            _ => false,
        },
    decreases views, 1int,
{
    let mut result: Vec<StagedPlan> = Vec::new();
    let mut changed = false;
    proof {
        assert(views.take(0) =~= Seq::empty());
        assert(staged_views(result@) =~= Seq::empty());
    }
    for plan in it: plans
        invariant
            views == staged_views(it.seq()),
            respread_first(views.take(it.index() as int), task_count) == (if changed {
                Ok::<_, ShuffleError>(Some(staged_views(result@)))
            } else {
                Ok(None)
            }),
            !changed ==> staged_views(result@) == views.take(it.index() as int),
    {
        let ghost k = it.index() as int;
        let ghost view = plan@;
        let ghost before = result@;
        proof {
            assert(view == views[k]);
            assert(views.take(k + 1).drop_last() =~= views.take(k));
            assert(views.take(k + 1).last() == view);
        }
        if changed {
            result.push(plan);
            proof {
                assert(staged_views(result@) =~= staged_views(before).push(view));
            }
        } else {
            match respread_node(plan, task_count, Ghost(view)) {
                Err(e) => {
                    proof {
                        lemma_respread_prefix(views, task_count, k + 1);
                    }
                    return Err(e);
                },
                Ok((plan, respread_here)) => {
                    let ghost after = plan@;
                    result.push(plan);
                    changed = respread_here;
                    proof {
                        assert(staged_views(result@) =~= staged_views(before).push(after));
                        assert(views.take(k).push(views[k]) =~= views.take(k + 1));
                    }
                },
            }
        }
    }
    proof {
        assert(views.take(views.len() as int) =~= views);
    }
    Ok((result, changed))
}

fn respread_node(plan: StagedPlan, task_count: usize, Ghost(view): Ghost<StagedView>) -> (result:
    Result<(StagedPlan, bool), ShuffleError>)
    requires
        view == plan@,
    ensures
        match (result, respread(view, task_count)) {
            (Err(e), Err(expected)) => e == expected,
            (Ok((plan, true)), Ok(Some(expected))) => plan@ == expected,
            (Ok((plan, false)), Ok(None)) => plan@ == view,
            _ => false,
        },
    decreases view, 0int,
{
    proof {
        lemma_staged_children(plan);
    }
    let n_children: usize = plan.children.len();
    let is_hash = matches!(plan.output_partitioning(), Partitioning::Hash(_));
    let kind = plan.kind();
    let spreads = match kind {
        StepKind::Node(node) => matches!(node.kind, NodeKind::Repartition),
        _ => false,
    };
    if spreads {
        if n_children != 1 {
            return Err(ShuffleError::ExpectedOneChild(n_children));
        }
        return match plan.step {
            Step::Node { node, task_idx_map, leaf_tasks } => {
                if node.partitioning.partition_count().checked_mul(task_count).is_none() {
                    return Err(ShuffleError::TooManyPartitions);
                }
                let partitioning = scale_partitioning(node.partitioning, task_count);
                let node = Node {
                    id: node.id,
                    kind: node.kind,
                    partitioning,
                    cardinality_effect: node.cardinality_effect,
                    estimation: node.estimation,
                };
                let result = StagedPlan {
                    step: Step::Node { node, task_idx_map, leaf_tasks },
                    children: plan.children,
                };
                proof {
                    lemma_staged_children(result);
                }
                Ok((result, true))
            },
            step => Ok((StagedPlan { step, children: plan.children }, false)),
        };
    }
    if !is_hash {
        return Err(ShuffleError::NodeNotHashPartitioned(kind));
    }
    let ghost below = view.children;
    match respread_children(plan.children, task_count, Ghost(below)) {
        Err(e) => Err(e),
        Ok((children, changed)) => {
            let result = StagedPlan { step: plan.step, children };
            proof {
                lemma_staged_children(result);
            }
            Ok((result, changed))
        },
    }
}

/// Reads the rows of another stage that are meant for its own task.
#[derive(Debug)]
pub struct NetworkShuffleExec {
    /// How the rows are spread within each task.
    pub partitioning: Partitioning,
    pub input_stage: StageRef,
    /// The plan of the stage below, while it is at hand. It spreads the rows for all the tasks of the
    /// stage above.
    pub plan: Option<StagedPlan>,
}

/// The text that shows a shuffle.
pub open spec fn shuffle_text(stage: StageRef, partitions: nat) -> Seq<char> {
    "[Stage "@ + decimal(stage.num as nat) + "] => NetworkShuffleExec: output_partitions="@ + decimal(
        partitions,
    ) + ", input_tasks="@ + decimal(stage.tasks as nat)
}

impl NetworkShuffleExec {
    /// Shuffles the rows of a plan, which runs on `input_task_count` tasks, to `task_count` tasks. The
    /// node that spreads them is scaled up, so that there are partitions for every task.
    pub fn try_new(
        input: StagedPlan,
        num: usize,
        task_count: usize,
        input_task_count: usize,
    ) -> (result: Result<Self, ShuffleError>)
        ensures
            match shuffle_input(input@, task_count) {
                Err(e) => result == Err::<Self, _>(e),
                Ok(expected) => result matches Ok(exec) && {
                    &&& exec.partitioning == planned_partitioning(input@)
                    &&& exec.input_stage == (StageRef { num, tasks: input_task_count })
                    &&& exec.plan matches Some(plan) && plan@ == expected
                },
            },
    {
        let partitioning = input.output_partitioning();
        if !matches!(partitioning, Partitioning::Hash(_)) {
            return Err(ShuffleError::InputNotHashPartitioned);
        }
        let ghost view = input@;
        match respread_node(input, task_count, Ghost(view)) {
            Err(e) => Err(e),
            Ok((plan, _)) => Ok(
                NetworkShuffleExec {
                    partitioning,
                    input_stage: StageRef { num, tasks: input_task_count },
                    plan: Some(plan),
                },
            ),
        }
    }

    /// Reads from another stage in the same way.
    pub fn with_input_stage(self, input_stage: StageRef, plan: Option<StagedPlan>) -> (exec: Self)
        ensures
            exec == (NetworkShuffleExec { input_stage, plan, ..self }),
    {
        NetworkShuffleExec { partitioning: self.partitioning, input_stage, plan }
    }

    /// Shows the node.
    pub fn fmt_as(&self) -> (text: String)
        ensures
            text@ == shuffle_text(self.input_stage, self.partitioning.count() as nat),
    {
        let mut text = String::new();
        text.push_str("[Stage ");
        push_usize(&mut text, self.input_stage.num);
        text.push_str("] => NetworkShuffleExec: output_partitions=");
        push_usize(&mut text, self.partitioning.partition_count());
        text.push_str(", input_tasks=");
        push_usize(&mut text, self.input_stage.tasks);
        proof {
            assert(text@ =~= shuffle_text(self.input_stage, self.partitioning.count() as nat));
        }
        text
    }

    /// What the task asks of each task of the stage below for one of its partitions.
    pub fn request(&self, task_index: usize, partition: usize) -> (result: PartitionRequest)
        requires
            self.partitioning.count() * task_index + self.partitioning.count() <= usize::MAX,
            self.partitioning.count() * task_index + partition <= usize::MAX,
        ensures
            result == request(self.partitioning.count(), task_index, partition),
            result.partition == self.partitioning.count() * task_index + partition,
    {
        partition_request(self.partitioning.partition_count(), task_index, partition)
    }
}

/// Whether one plan is another in which exactly one node spreads rows, over as many times more partitions
/// as there are tasks. Everything else is the same.
pub open spec fn spreads_for_tasks(before: StagedView, after: StagedView, task_count: usize) -> bool
    decreases before,
{
    ||| before.step matches StepView::Node { node, task_idx_map, leaf_tasks }
        && node.kind is Repartition && before.children.len() == 1 && after.children
        == before.children && (after.step matches StepView::Node {
        node: spread,
        task_idx_map: kept_map,
        leaf_tasks: kept_tasks,
    } && kept_map == task_idx_map && kept_tasks == leaf_tasks && spread == (Node {
        partitioning: spread.partitioning,
        ..node
    }) && spread.partitioning.count() == node.partitioning.count() * task_count && (
    spread.partitioning is Hash <==> node.partitioning is Hash))
    ||| after.step == before.step && after.children.len() == before.children.len() && exists|i: int|
        0 <= i < before.children.len() && spreads_for_tasks(
            #[trigger] before.children[i],
            after.children[i],
            task_count,
        ) && forall|j: int|
            0 <= j < before.children.len() && j != i ==> #[trigger] after.children[j]
                == before.children[j]
}

/// Where a shuffle changes the plan below it, it makes one node that spreads rows do so for all the tasks
/// above, and changes nothing else.
pub proof fn shuffles_spread_rows_for_all_tasks(plan: StagedView, task_count: usize)
    ensures
        respread(plan, task_count) matches Ok(Some(p)) ==> spreads_for_tasks(plan, p, task_count),
    decreases plan, 0int,
{
    lemma_one_spreads(plan.children, task_count);
    if repartition_of(plan.step) is None {
        if let Ok(Some(p)) = respread(plan, task_count) {
            let i = choose|i: int| #[trigger]
                spreads_at(plan.children, p.children, task_count, i);
            assert(spreads_for_tasks(plan.children[i], p.children[i], task_count));
        }
    }
}

/// Whether the plan at the given place is the only one of several that changes.
spec fn spreads_at(
    before: Seq<StagedView>,
    after: Seq<StagedView>,
    task_count: usize,
    i: int,
) -> bool {
    &&& after.len() == before.len()
    &&& 0 <= i < before.len()
    &&& spreads_for_tasks(before[i], after[i], task_count)
    &&& forall|j: int| 0 <= j < before.len() && j != i ==> #[trigger] after[j] == before[j]
}

proof fn lemma_one_spreads(plans: Seq<StagedView>, task_count: usize)
    ensures
        respread_first(plans, task_count) matches Ok(Some(ps)) ==> exists|i: int| #[trigger]
            spreads_at(plans, ps, task_count, i),
    decreases plans, 1int,
{
    if plans.len() > 0 {
        let front = plans.drop_last();
        lemma_one_spreads(front, task_count);
        shuffles_spread_rows_for_all_tasks(plans.last(), task_count);
        if let Ok(Some(ps)) = respread_first(plans, task_count) {
            match respread_first(front, task_count) {
                Ok(Some(before)) => {
                    let i = choose|i: int| #[trigger] spreads_at(front, before, task_count, i);
                    assert forall|j: int| 0 <= j < plans.len() && j != i implies #[trigger] ps[j]
                        == plans[j] by {
                        if j < front.len() {
                            assert(before[j] == front[j]);
                        }
                    }
                    assert(spreads_at(plans, ps, task_count, i));
                },
                _ => {
                    assert(spreads_at(plans, ps, task_count, plans.len() - 1));
                },
            }
        }
    }
}

} // verus!
