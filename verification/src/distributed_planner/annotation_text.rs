use crate::distributed_planner::plan::{Node, NodeKind};
use crate::distributed_planner::plan_annotator::{
    annotated_views, AnnotatedPlan, AnnotatedView, PlanOrNetworkBoundary, PlanOrNetworkBoundaryView,
};
use crate::distributed_planner::task_estimator::TaskCountAnnotation;
use crate::text::{decimal, push_usize, spaces};
use vstd::prelude::*;

verus! {

/// The name of a node of a kind that the planner knows.
pub open spec fn kind_name(kind: NodeKind) -> Option<Seq<char>> {
    match kind {
        NodeKind::Repartition => Some("RepartitionExec"@),
        NodeKind::CoalescePartitions => Some("CoalescePartitionsExec"@),
        NodeKind::SortPreservingMerge => Some("SortPreservingMergeExec"@),
        NodeKind::CoalesceBatches { .. } => Some("CoalesceBatchesExec"@),
        NodeKind::Union => Some("UnionExec"@),
        NodeKind::ChildrenIsolatorUnion => Some("ChildrenIsolatorUnionExec"@),
        NodeKind::HashJoin { .. } => Some("HashJoinExec"@),
        NodeKind::ScalarSubquery => Some("ScalarSubqueryExec"@),
        NodeKind::Broadcast { .. } => Some("BroadcastExec"@),
        NodeKind::NetworkShuffle(_) => Some("NetworkShuffleExec"@),
        NodeKind::NetworkCoalesce(_) => Some("NetworkCoalesceExec"@),
        NodeKind::NetworkBroadcast(_) => Some("NetworkBroadcastExec"@),
        NodeKind::Distributed => Some("DistributedExec"@),
        NodeKind::InMemoryCache => Some("InMemoryDataSourceExec"@),
        NodeKind::Other => None,
    }
}

fn find_kind_name(kind: NodeKind) -> (name: Option<&'static str>)
    ensures
        match name {
            Some(name) => kind_name(kind) == Some(name@),
            None => kind_name(kind) is None,
        },
{
    match kind {
        NodeKind::Repartition => Some("RepartitionExec"),
        NodeKind::CoalescePartitions => Some("CoalescePartitionsExec"),
        NodeKind::SortPreservingMerge => Some("SortPreservingMergeExec"),
        NodeKind::CoalesceBatches { .. } => Some("CoalesceBatchesExec"),
        NodeKind::Union => Some("UnionExec"),
        NodeKind::ChildrenIsolatorUnion => Some("ChildrenIsolatorUnionExec"),
        NodeKind::HashJoin { .. } => Some("HashJoinExec"),
        NodeKind::ScalarSubquery => Some("ScalarSubqueryExec"),
        NodeKind::Broadcast { .. } => Some("BroadcastExec"),
        NodeKind::NetworkShuffle(_) => Some("NetworkShuffleExec"),
        NodeKind::NetworkCoalesce(_) => Some("NetworkCoalesceExec"),
        NodeKind::NetworkBroadcast(_) => Some("NetworkBroadcastExec"),
        NodeKind::Distributed => Some("DistributedExec"),
        NodeKind::InMemoryCache => Some("InMemoryDataSourceExec"),
        NodeKind::Other => None,
    }
}

/// Whether the name of a node is known: from its kind, or as one of the given names, by its place.
pub open spec fn is_named(node: Node, names: Seq<String>) -> bool {
    kind_name(node.kind) is None ==> (node.id matches Some(id) && id < names.len())
}

/// The name of a node.
pub open spec fn node_name(node: Node, names: Seq<String>) -> Seq<char> {
    match kind_name(node.kind) {
        Some(name) => name,
        None => names[node.id->0 as int]@,
    }
}

/// Whether the names of all the nodes of a plan are known.
pub open spec fn all_named(plan: AnnotatedView, names: Seq<String>) -> bool
    decreases plan,
{
    &&& plan.plan_or_nb matches PlanOrNetworkBoundaryView::Plan { node, .. } ==> is_named(
        node,
        names,
    )
    &&& forall|i: int|
        0 <= i < plan.children.len() ==> all_named(#[trigger] plan.children[i], names)
}

/// How a node, or a place where data must cross the network, is shown.
pub open spec fn place_text(place: PlanOrNetworkBoundaryView, names: Seq<String>) -> Seq<char> {
    match place {
        PlanOrNetworkBoundaryView::Plan { node, .. } => node_name(node, names),
        PlanOrNetworkBoundaryView::Shuffle => "[NetworkBoundary] Shuffle"@,
        PlanOrNetworkBoundaryView::Coalesce => "[NetworkBoundary] Coalesce"@,
        PlanOrNetworkBoundaryView::Broadcast => "[NetworkBoundary] Broadcast"@,
    }
}

/// How a task count is shown.
pub open spec fn count_text(count: TaskCountAnnotation) -> Seq<char> {
    match count {
        TaskCountAnnotation::Desired(n) => "Desired("@ + decimal(n as nat) + ")"@,
        TaskCountAnnotation::Maximum(n) => "Maximum("@ + decimal(n as nat) + ")"@,
    }
}

/// How a plan is shown: each node on a line of its own, further in than the node above it.
pub open spec fn annotated_text(plan: AnnotatedView, names: Seq<String>, indent: nat) -> Seq<char>
    decreases plan,
{
    spaces(indent) + place_text(plan.plan_or_nb, names) + ": task_count="@ + count_text(
        plan.task_count,
    ) + "\n"@ + all_annotated_text(plan.children, names, indent + 2)
}

/// How several plans are shown.
pub open spec fn all_annotated_text(
    plans: Seq<AnnotatedView>,
    names: Seq<String>,
    indent: nat,
) -> Seq<char>
    decreases plans,
{
    if plans.len() == 0 {
        Seq::empty()
    } else {
        all_annotated_text(plans.drop_last(), names, indent) + annotated_text(
            plans.last(),
            names,
            indent,
        )
    }
}

impl PlanOrNetworkBoundary {
    /// Shows the node, or the place where data must cross the network.
    pub fn fmt<'a>(&self, names: &'a Vec<String>) -> (text: &'a str)
        requires
            self@ matches PlanOrNetworkBoundaryView::Plan { node, .. } ==> is_named(node, names@),
        ensures
            text@ == place_text(self@, names@),
    {
        match self {
            PlanOrNetworkBoundary::Plan { node, .. } => match find_kind_name(node.kind) {
                Some(name) => name,
                None => match node.id {
                    Some(id) => names[id].as_str(),
                    None => "",
                },
            },
            PlanOrNetworkBoundary::Shuffle => "[NetworkBoundary] Shuffle",
            PlanOrNetworkBoundary::Coalesce => "[NetworkBoundary] Coalesce",
            PlanOrNetworkBoundary::Broadcast => "[NetworkBoundary] Broadcast",
        }
    }
}

fn push_count(out: &mut String, count: TaskCountAnnotation)
    ensures
        final(out)@ == old(out)@ + count_text(count),
{
    let ghost start = out@;
    match count {
        TaskCountAnnotation::Desired(n) => {
            out.push_str("Desired(");
            push_usize(out, n);
        },
        TaskCountAnnotation::Maximum(n) => {
            out.push_str("Maximum(");
            push_usize(out, n);
        },
    }
    out.push_str(")");
    proof {
        assert(out@ =~= start + count_text(count));
    }
}

fn push_annotated(
    out: &mut String,
    plan: &AnnotatedPlan,
    names: &Vec<String>,
    prefix: &str,
    Ghost(indent): Ghost<nat>,
)
    requires
        prefix@ == spaces(indent),
        all_named(plan@, names@),
    ensures
        final(out)@ == old(out)@ + annotated_text(plan@, names@, indent),
    decreases *plan,
{
    let ghost start = out@;
    let ghost views = annotated_views(plan.children@);
    proof {
        assert(plan@.children =~= views);
    }
    out.push_str(prefix);
    out.push_str(plan.plan_or_nb.fmt(names));
    out.push_str(": task_count=");
    push_count(out, plan.task_count);
    out.push_str("\n");
    let mut further = String::new();
    further.push_str(prefix);
    further.push(' ');
    further.push(' ');
    let ghost own = spaces(indent) + place_text(plan@.plan_or_nb, names@) + ": task_count="@
        + count_text(plan.task_count) + "\n"@;
    proof {
        assert(further@ =~= spaces(indent + 2));
        assert(views.take(0) =~= Seq::empty());
        assert(out@ =~= start + own + all_annotated_text(views.take(0), names@, indent + 2));
    }
    for i in 0..plan.children.len()
        invariant
            views == annotated_views(plan.children@),
            plan@.children == views,
            further@ == spaces(indent + 2),
            all_named(plan@, names@),
            out@ == start + own + all_annotated_text(views.take(i as int), names@, indent + 2),
    {
        proof {
            assert(views.take(i + 1).drop_last() =~= views.take(i as int));
            assert(views.take(i + 1).last() == plan.children@[i as int]@);
            assert(all_named(plan@.children[i as int], names@));
        }
        push_annotated(out, &plan.children[i], names, further.as_str(), Ghost(indent + 2));
        proof {
            assert(out@ =~= start + own + all_annotated_text(
                views.take(i + 1),
                names@,
                indent + 2,
            ));
        }
    }
    proof {
        assert(views.take(views.len() as int) =~= views);
        assert(out@ =~= start + annotated_text(plan@, names@, indent));
    }
}

impl AnnotatedPlan {
    /// Shows the plan. `names` holds the names of the nodes that the planner does not know, each at the
    /// place that the node has as its id.
    pub fn fmt(&self, names: &Vec<String>) -> (text: String)
        requires
            all_named(self@, names@),
        ensures
            text@ == annotated_text(self@, names@, 0),
    {
        let mut text = String::new();
        let no_prefix = String::new();
        proof {
            assert(no_prefix@ =~= spaces(0));
        }
        push_annotated(&mut text, self, names, no_prefix.as_str(), Ghost(0));
        proof {
            assert(text@ =~= annotated_text(self@, names@, 0));
        }
        text
    }

    /// Tells whether the names of all the nodes are known.
    pub fn is_named(&self, names: &Vec<String>) -> (yes: bool)
        ensures
            yes == all_named(self@, names@),
        decreases *self,
    {
        let ghost views = annotated_views(self.children@);
        proof {
            assert(self@.children =~= views);
        }
        if let PlanOrNetworkBoundary::Plan { node, .. } = &self.plan_or_nb {
            if find_kind_name(node.kind).is_none() {
                match node.id {
                    Some(id) => {
                        if id >= names.len() {
                            return false;
                        }
                    },
                    None => {
                        return false;
                    },
                }
            }
        }
        for i in 0..self.children.len()
            invariant
                self@.children == annotated_views(self.children@),
                self@.plan_or_nb matches PlanOrNetworkBoundaryView::Plan { node, .. } ==> is_named(
                    node,
                    names@,
                ),
                forall|j: int| 0 <= j < i ==> all_named(#[trigger] self@.children[j], names@),
        {
            proof {
                assert(self@.children[i as int] == self.children@[i as int]@);
            }
            if !self.children[i].is_named(names) {
                proof {
                    assert(!all_named(self@.children[i as int], names@));
                }
                return false;
            }
        }
        true
    }
}

} // verus!
