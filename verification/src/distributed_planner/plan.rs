use crate::distributed_planner::task_estimator::TaskCountAnnotation;
use crate::execution_plans::children_isolator_union::Slot;
use vstd::prelude::*;

verus! {

/// How the output of a node is cut into partitions.
#[derive(Debug, Clone, Copy, PartialEq, Eq, Structural)]
pub enum Partitioning {
    RoundRobinBatch(usize),
    Hash(usize),
    UnknownPartitioning(usize),
}

impl Partitioning {
    pub open spec fn count(self) -> usize {
        match self {
            Partitioning::RoundRobinBatch(n) => n,
            Partitioning::Hash(n) => n,
            Partitioning::UnknownPartitioning(n) => n,
        }
    }

    /// The number of partitions.
    pub fn partition_count(&self) -> (count: usize)
        ensures
            count == self.count(),
    {
        match self {
            Partitioning::RoundRobinBatch(n) => *n,
            Partitioning::Hash(n) => *n,
            Partitioning::UnknownPartitioning(n) => *n,
        }
    }
}

/// Whether a node passes on fewer or more rows than it receives.
#[derive(Debug, Clone, Copy, PartialEq, Eq, Structural)]
pub enum CardinalityEffect {
    Unknown,
    Equal,
    LowerEqual,
    GreaterEqual,
}

/// How the build side of a hash join is spread.
#[derive(Debug, Clone, Copy, PartialEq, Eq, Structural)]
pub enum PartitionMode {
    Partitioned,
    CollectLeft,
    Auto,
}

#[derive(Debug, Clone, Copy, PartialEq, Eq, Structural)]
pub enum JoinType {
    Inner,
    Left,
    Right,
    Full,
    LeftSemi,
    RightSemi,
    LeftAnti,
    RightAnti,
    LeftMark,
    RightMark,
}

/// What the planner needs to know of the stage below a network boundary.
#[derive(Debug, Clone, Copy, PartialEq, Eq, Structural)]
pub struct StageRef {
    pub num: usize,
    pub tasks: usize,
}

/// The kinds of nodes that the planner tells apart.
#[derive(Debug, Clone, Copy, PartialEq, Eq, Structural)]
pub enum NodeKind {
    Repartition,
    CoalescePartitions,
    SortPreservingMerge,
    CoalesceBatches { target_batch_size: usize, fetch: Option<usize> },
    Union,
    ChildrenIsolatorUnion,
    HashJoin { mode: PartitionMode, join_type: JoinType },
    ScalarSubquery,
    Broadcast { consumer_task_count: usize },
    NetworkShuffle(StageRef),
    NetworkCoalesce(StageRef),
    NetworkBroadcast(StageRef),
    Distributed,
    /// Keeps the data of the leaf below in memory.
    InMemoryCache,
    Other,
}

/// A node of a physical plan, without its children.
#[derive(Debug, Clone, Copy, PartialEq, Eq, Structural)]
pub struct Node {
    /// Tells the node apart from the others in the plan that it came from. Nodes that the
    /// planner adds have none.
    pub id: Option<usize>,
    pub kind: NodeKind,
    pub partitioning: Partitioning,
    pub cardinality_effect: CardinalityEffect,
    /// What the estimators say of the node.
    pub estimation: Option<TaskCountAnnotation>,
}

/// A physical plan.
#[derive(Debug)]
pub struct Plan {
    pub node: Node,
    /// For a union whose children are isolated from each other, the pieces that each task runs.
    pub task_idx_map: Vec<Vec<Slot>>,
    pub children: Vec<Plan>,
}

/// The contents of a [Plan].
#[verifier::ext_equal]
pub struct PlanView {
    pub node: Node,
    pub task_idx_map: Seq<Seq<Slot>>,
    pub children: Seq<PlanView>,
}

pub open spec fn runs_view(runs: Seq<Vec<Slot>>) -> Seq<Seq<Slot>> {
    Seq::new(runs.len(), |t: int| runs[t]@)
}

pub open spec fn plan_view(plan: Plan) -> PlanView
    decreases plan,
{
    PlanView {
        node: plan.node,
        task_idx_map: runs_view(plan.task_idx_map@),
        children: Seq::new(
            plan.children@.len(),
            |i: int|
                if 0 <= i < plan.children@.len() {
                    plan_view(plan.children@[i])
                } else {
                    arbitrary()
                },
        ),
    }
}

impl View for Plan {
    type V = PlanView;

    open spec fn view(&self) -> PlanView {
        plan_view(*self)
    }
}

pub fn clone_runs(runs: &Vec<Vec<Slot>>) -> (copy: Vec<Vec<Slot>>)
    ensures
        runs_view(copy@) == runs_view(runs@),
{
    let mut copy: Vec<Vec<Slot>> = Vec::new();
    for t in 0..runs.len()
        invariant
            copy@.len() == t,
            forall|u: int| 0 <= u < t ==> (#[trigger] copy@[u])@ == runs@[u]@,
    {
        let source = &runs[t];
        let mut run: Vec<Slot> = Vec::new();
        for i in 0..source.len()
            invariant
                run@ == source@.take(i as int),
        {
            run.push(source[i]);
            proof {
                assert(run@ =~= source@.take(i + 1));
            }
        }
        proof {
            assert(source@.take(source@.len() as int) =~= source@);
        }
        copy.push(run);
    }
    proof {
        assert(runs_view(copy@) =~= runs_view(runs@));
    }
    copy
}

/// The views of some plans.
pub open spec fn plan_views(plans: Seq<Plan>) -> Seq<PlanView> {
    Seq::new(plans.len(), |i: int| plans[i]@)
}

impl Plan {
    /// A copy of the plan.
    pub fn copy(&self) -> (copy: Plan)
        ensures
            copy@ == self@,
        decreases self,
    {
        let mut children: Vec<Plan> = Vec::new();
        for i in 0..self.children.len()
            invariant
                children@.len() == i,
                forall|j: int| 0 <= j < i ==> (#[trigger] children@[j])@ == self.children@[j]@,
        {
            let child = self.children[i].copy();
            children.push(child);
        }
        let copy = Plan {
            node: self.node,
            task_idx_map: clone_runs(&self.task_idx_map),
            children,
        };
        proof {
            assert(copy@.children =~= self@.children);
        }
        copy
    }
}

} // verus!
