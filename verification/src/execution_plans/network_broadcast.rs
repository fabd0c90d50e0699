use crate::distributed_planner::plan::{Node, NodeKind, Partitioning, StageRef};
use crate::distributed_planner::staged_plan::{
    lemma_staged_children, planned_partitioning, step_kind, StagedPlan, StagedView, Step, StepKind,
    StepView,
};
use crate::execution_plans::partition_range::{partition_request, request, PartitionRequest};
use crate::text::{decimal, push_usize};
use vstd::prelude::*;

verus! {

/// Reads all the rows of another stage.
#[derive(Debug)]
pub struct NetworkBroadcastExec {
    pub partitioning: Partitioning,
    pub input_stage: StageRef,
    /// The plan of the stage below, while it is at hand. It keeps its rows for all the tasks of the
    /// stage above.
    pub plan: Option<StagedPlan>,
}

/// Why a plan cannot be broadcast.
#[derive(Debug, Clone, Copy, PartialEq, Eq, Structural)]
pub enum BroadcastError {
    /// The plan is of another kind.
    InputNotBroadcast(StepKind),
    ExpectedOneChild(usize),
}

impl BroadcastError {
    /// The text of the error about a plan of the wrong kind, whose name is given.
    pub fn message(&self, name: &str) -> (text: Option<String>)
        ensures
            match *self {
                BroadcastError::InputNotBroadcast(_) => text matches Some(t) && t@
                    == "NetworkBroadcastExec requires a BroadcastExec input, found: "@ + name@,
                BroadcastError::ExpectedOneChild(_) => text is None,
            },
    {
        match self {
            BroadcastError::InputNotBroadcast(_) => {
                let mut text = String::new();
                text.push_str("NetworkBroadcastExec requires a BroadcastExec input, found: ");
                text.push_str(name);
                proof {
                    assert(text@ =~= "NetworkBroadcastExec requires a BroadcastExec input, found: "@
                        + name@);
                }
                Some(text)
            },
            BroadcastError::ExpectedOneChild(_) => None,
        }
    }
}

/// Whether a step keeps rows for several consumers.
pub open spec fn is_broadcast(step: StepView) -> bool {
    step matches StepView::Node { node, .. } && node.kind is Broadcast
}

/// The same step, keeping its rows for the given number of consumers.
pub open spec fn broadcast_step(step: StepView, consumer_task_count: usize) -> StepView {
    match step {
        StepView::Node { node, task_idx_map, leaf_tasks } => StepView::Node {
            node: Node { kind: NodeKind::Broadcast { consumer_task_count }, ..node },
            task_idx_map,
            leaf_tasks,
        },
        _ => step,
    }
}

/// What a plan becomes below a broadcast to `consumer_task_count` tasks: it keeps its rows for all of
/// them.
pub open spec fn broadcast_input(input: StagedView, consumer_task_count: usize) -> Result<
    StagedView,
    BroadcastError,
> {
    if !is_broadcast(input.step) {
        Err(BroadcastError::InputNotBroadcast(step_kind(input.step)))
    } else if input.children.len() != 1 {
        Err(BroadcastError::ExpectedOneChild(input.children.len() as usize))
    } else {
        Ok(
            StagedView {
                step: broadcast_step(input.step, consumer_task_count),
                children: input.children,
            },
        )
    }
}

/// How the rows of a broadcast are spread in each consumer: as below it.
pub open spec fn broadcast_partitioning(input: StagedView) -> Partitioning {
    Partitioning::UnknownPartitioning(planned_partitioning(input.children[0]).count())
}

/// The text that shows a broadcast.
pub open spec fn broadcast_text(
    stage: StageRef,
    consumer_partitions: nat,
    stage_partitions: nat,
) -> Seq<char> {
    "[Stage "@ + decimal(stage.num as nat) + "] => NetworkBroadcastExec: partitions_per_consumer="@
        + decimal(consumer_partitions) + ", stage_partitions="@ + decimal(stage_partitions)
        + ", input_tasks="@ + decimal(stage.tasks as nat)
}

impl NetworkBroadcastExec {
    /// Sends all the rows below a broadcast, which runs on `input_task_count` tasks, to each of
    /// `consumer_task_count` tasks. Each of them reads as many partitions as there are below.
    pub fn try_new(
        input: StagedPlan,
        stage_num: usize,
        consumer_task_count: usize,
        input_task_count: usize,
    ) -> (result: Result<Self, BroadcastError>)
        ensures
            match broadcast_input(input@, consumer_task_count) {
                Err(e) => result == Err::<Self, _>(e),
                Ok(expected) => result matches Ok(exec) && {
                    &&& exec.partitioning == broadcast_partitioning(input@)
                    &&& exec.input_stage == (StageRef { num: stage_num, tasks: input_task_count })
                    &&& exec.plan matches Some(plan) && plan@ == expected
                },
            },
    {
        proof {
            lemma_staged_children(input);
        }
        let kind = input.kind();
        let n_children: usize = input.children.len();
        match input.step {
            Step::Node { node, task_idx_map, leaf_tasks } => {
                if !matches!(node.kind, NodeKind::Broadcast { .. }) {
                    return Err(BroadcastError::InputNotBroadcast(kind));
                }
                if n_children != 1 {
                    return Err(BroadcastError::ExpectedOneChild(n_children));
                }
                let partitions: usize = input.children[0].output_partitioning().partition_count();
                let node = Node {
                    id: node.id,
                    kind: NodeKind::Broadcast { consumer_task_count },
                    partitioning: node.partitioning,
                    cardinality_effect: node.cardinality_effect,
                    estimation: node.estimation,
                };
                let plan = StagedPlan {
                    step: Step::Node { node, task_idx_map, leaf_tasks },
                    children: input.children,
                };
                proof {
                    lemma_staged_children(plan);
                }
                Ok(
                    NetworkBroadcastExec {
                        partitioning: Partitioning::UnknownPartitioning(partitions),
                        input_stage: StageRef { num: stage_num, tasks: input_task_count },
                        plan: Some(plan),
                    },
                )
            },
            _ => Err(BroadcastError::InputNotBroadcast(kind)),
        }
    }

    /// Reads from another stage in the same way.
    pub fn with_input_stage(self, input_stage: StageRef, plan: Option<StagedPlan>) -> (exec: Self)
        ensures
            exec == (NetworkBroadcastExec { input_stage, plan, ..self }),
    {
        NetworkBroadcastExec { partitioning: self.partitioning, input_stage, plan }
    }

    /// Shows the node. `stage_partitions` is the number of partitions of the stage below, where its plan
    /// is at hand.
    pub fn fmt_as(&self, stage_partitions: Option<usize>) -> (text: String)
        ensures
            text@ == broadcast_text(
                self.input_stage,
                self.partitioning.count() as nat,
                match stage_partitions {
                    Some(n) => n as nat,
                    None => 0,
                },
            ),
    {
        let in_stage: usize = match stage_partitions {
            Some(n) => n,
            None => 0,
        };
        let mut text = String::new();
        text.push_str("[Stage ");
        push_usize(&mut text, self.input_stage.num);
        text.push_str("] => NetworkBroadcastExec: partitions_per_consumer=");
        push_usize(&mut text, self.partitioning.partition_count());
        text.push_str(", stage_partitions=");
        push_usize(&mut text, in_stage);
        text.push_str(", input_tasks=");
        push_usize(&mut text, self.input_stage.tasks);
        proof {
            assert(text@ =~= broadcast_text(
                self.input_stage,
                self.partitioning.count() as nat,
                in_stage as nat,
            ));
        }
        text
    }

    /// What the task asks of each task of the stage below for one of its partitions.
    pub fn request(&self, task_index: usize, partition: usize) -> (result: PartitionRequest)
        requires
            self.partitioning.count() * task_index + self.partitioning.count() <= usize::MAX,
            self.partitioning.count() * task_index + partition <= usize::MAX,
        ensures
            result == request(self.partitioning.count(), task_index, partition),
            result.partition == self.partitioning.count() * task_index + partition,
    {
        partition_request(self.partitioning.partition_count(), task_index, partition)
    }
}

/// Rows can be sent to all tasks exactly from a plan that keeps rows of one plan below it. The plan is
/// told how many tasks there are and stays the same otherwise, and every one of these tasks reads as many
/// partitions as there are below.
pub proof fn broadcasts_reach_all_tasks(input: StagedView, consumer_task_count: usize)
    ensures
        broadcast_input(input, consumer_task_count) is Ok <==> is_broadcast(input.step)
            && input.children.len() == 1,
        broadcast_input(input, consumer_task_count) matches Ok(sent) ==> {
            &&& sent.children == input.children
            &&& input.step matches StepView::Node { node: before, .. }
            &&& sent.step matches StepView::Node { node, task_idx_map, leaf_tasks }
            &&& node.kind matches NodeKind::Broadcast { consumer_task_count: told }
            &&& told == consumer_task_count
            &&& input.step == (StepView::Node {
                node: Node { kind: before.kind, ..node },
                task_idx_map,
                leaf_tasks,
            })
            &&& broadcast_partitioning(sent).count() == planned_partitioning(
                input.children[0],
            ).count()
        },
{
}

} // verus!
