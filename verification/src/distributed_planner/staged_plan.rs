use crate::distributed_planner::plan::{runs_view, Node, Partitioning};
use crate::execution_plans::children_isolator_union::Slot;
use crate::execution_plans::network_broadcast::BroadcastError;
use crate::execution_plans::network_shuffle::ShuffleError;
use crate::protobuf::distributed_codec::NetworkKind;
use vstd::prelude::*;

verus! {

/// A place where data crosses the network from the stage below to the stage above.
#[derive(Debug, Clone, Copy, PartialEq, Eq, Structural)]
pub struct Boundary {
    pub kind: NetworkKind,
    /// The number of the stage below.
    pub num: usize,
    /// The tasks of the stage above.
    pub task_count: usize,
    /// The tasks of the stage below.
    pub input_task_count: usize,
    /// How the rows are spread in a task of the stage above, as far as the plan tells: leaves have other
    /// partitions once they are scaled up, and a coalesce reads those of several tasks side by side.
    pub partitioning: Partitioning,
}

/// A node of a plan that is cut into stages.
#[derive(Debug)]
pub enum Step {
    /// A node of the plan. A leaf is scaled up for the number of tasks that it runs on.
    Node { node: Node, task_idx_map: Vec<Vec<Slot>>, leaf_tasks: Option<usize> },
    Boundary(Boundary),
    /// Gathers small batches into larger ones.
    CoalesceBatches { target_batch_size: usize, fetch: Option<usize> },
}

/// A plan that is cut into stages.
#[derive(Debug)]
pub struct StagedPlan {
    pub step: Step,
    pub children: Vec<StagedPlan>,
}

/// The contents of a [Step].
#[verifier::ext_equal]
pub enum StepView {
    Node { node: Node, task_idx_map: Seq<Seq<Slot>>, leaf_tasks: Option<usize> },
    Boundary(Boundary),
    CoalesceBatches { target_batch_size: usize, fetch: Option<usize> },
}

impl View for Step {
    type V = StepView;

    open spec fn view(&self) -> StepView {
        match self {
            Step::Node { node, task_idx_map, leaf_tasks } => StepView::Node {
                node: *node,
                task_idx_map: runs_view(task_idx_map@),
                leaf_tasks: *leaf_tasks,
            },
            Step::Boundary(boundary) => StepView::Boundary(*boundary),
            Step::CoalesceBatches {
                target_batch_size,
                fetch,
            } => StepView::CoalesceBatches { target_batch_size: *target_batch_size, fetch: *fetch },
        }
    }
}

/// The contents of a [StagedPlan].
#[verifier::ext_equal]
pub struct StagedView {
    pub step: StepView,
    pub children: Seq<StagedView>,
}

pub open spec fn staged_view(plan: StagedPlan) -> StagedView
    decreases plan,
{
    StagedView {
        step: plan.step@,
        children: Seq::new(
            plan.children@.len(),
            |i: int|
                if 0 <= i < plan.children@.len() {
                    staged_view(plan.children@[i])
                } else {
                    arbitrary()
                },
        ),
    }
}

impl View for StagedPlan {
    type V = StagedView;

    open spec fn view(&self) -> StagedView {
        staged_view(*self)
    }
}

/// The contents of some plans.
pub open spec fn staged_views(plans: Seq<StagedPlan>) -> Seq<StagedView> {
    Seq::new(plans.len(), |i: int| plans[i]@)
}

pub(crate) proof fn lemma_staged_children(plan: StagedPlan)
    ensures
        plan@.children == staged_views(plan.children@),
        plan@.step == plan.step@,
{
    assert(plan@.children =~= staged_views(plan.children@));
}

/// What a step is, without what is below it.
#[derive(Debug, Clone, Copy, PartialEq, Eq, Structural)]
pub enum StepKind {
    Node(Node),
    Network(NetworkKind),
    CoalesceBatches,
}

/// What a step is, without what is below it.
pub open spec fn step_kind(step: StepView) -> StepKind {
    match step {
        StepView::Node { node, .. } => StepKind::Node(node),
        StepView::Boundary(boundary) => StepKind::Network(boundary.kind),
        StepView::CoalesceBatches { .. } => StepKind::CoalesceBatches,
    }
}

/// How the rows of a plan are spread, as far as the plan tells. Gathering batches leaves them where
/// they are.
pub open spec fn planned_partitioning(plan: StagedView) -> Partitioning
    decreases plan,
{
    match plan.step {
        StepView::Node { node, .. } => node.partitioning,
        StepView::Boundary(boundary) => boundary.partitioning,
        StepView::CoalesceBatches { .. } => if plan.children.len() > 0 {
            planned_partitioning(plan.children[0])
        } else {
            Partitioning::UnknownPartitioning(0)
        },
    }
}

impl StagedPlan {
    /// What the step on top is.
    pub fn kind(&self) -> (kind: StepKind)
        ensures
            kind == step_kind(self@.step),
    {
        match &self.step {
            Step::Node { node, .. } => StepKind::Node(*node),
            Step::Boundary(boundary) => StepKind::Network(boundary.kind),
            Step::CoalesceBatches { .. } => StepKind::CoalesceBatches,
        }
    }

    /// How the rows are spread, as far as the plan tells.
    pub fn output_partitioning(&self) -> (partitioning: Partitioning)
        ensures
            partitioning == planned_partitioning(self@),
        decreases self,
    {
        proof {
            lemma_staged_children(*self);
        }
        match &self.step {
            Step::Node { node, .. } => node.partitioning,
            Step::Boundary(boundary) => boundary.partitioning,
            Step::CoalesceBatches { .. } => if self.children.len() > 0 {
                self.children[0].output_partitioning()
            } else {
                Partitioning::UnknownPartitioning(0)
            },
        }
    }
}

/// Why a plan cannot be cut into stages.
#[derive(Debug, Clone, Copy, PartialEq, Eq, Structural)]
pub enum DistributeError {
    /// Data crosses the network from one plan to another, and not from this many.
    ExpectedOneChild(usize),
    /// The stages are too many to count.
    TooManyStages,
    /// A plan cannot be shuffled.
    Shuffle(ShuffleError),
    /// A plan cannot be broadcast.
    Broadcast(BroadcastError),
}

} // verus!
