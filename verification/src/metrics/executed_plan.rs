use crate::metrics::collection::MetricsCollection;
use crate::metrics::metric::{MetricView, MetricsSet};
use crate::protocol::grpc::worker::{TaskKeyView, WireMetricView};
use vstd::prelude::*;

verus! {

/// The stage that a network boundary reads from.
#[derive(Debug)]
pub struct InputStage {
    pub query_id: Vec<u8>,
    pub num: usize,
    pub task_count: usize,
}

/// The contents of an [InputStage].
#[verifier::ext_equal]
pub struct InputStageView {
    pub query_id: Seq<u8>,
    pub num: usize,
    pub task_count: usize,
}

impl View for InputStage {
    type V = InputStageView;

    open spec fn view(&self) -> InputStageView {
        InputStageView {
            query_id: self.query_id@,
            num: self.num,
            task_count: self.task_count,
        }
    }
}

/// What a network boundary knows: the stage below it, and the metrics that its tasks sent along.
pub struct Boundary {
    pub stage: InputStage,
    pub metrics_collection: MetricsCollection,
}

/// The contents of a [Boundary].
#[verifier::ext_equal]
pub struct BoundaryView {
    pub stage: InputStageView,
    pub metrics_collection: Map<TaskKeyView, Seq<Seq<WireMetricView>>>,
}

impl View for Boundary {
    type V = BoundaryView;

    open spec fn view(&self) -> BoundaryView {
        BoundaryView { stage: self.stage@, metrics_collection: self.metrics_collection@ }
    }
}

/// A plan with the metrics of its nodes. The child of a network boundary is the plan of the stage
/// below it.
pub struct ExecutedPlan {
    pub id: usize,
    pub metrics: Option<MetricsSet>,
    pub boundary: Option<Boundary>,
    pub children: Vec<ExecutedPlan>,
}

/// The contents of an [ExecutedPlan].
#[verifier::ext_equal]
pub struct ExecutedView {
    pub id: usize,
    pub metrics: Option<Seq<MetricView>>,
    pub boundary: Option<BoundaryView>,
    pub children: Seq<ExecutedView>,
}

pub open spec fn executed_view(plan: ExecutedPlan) -> ExecutedView
    decreases plan,
{
    ExecutedView {
        id: plan.id,
        metrics: match plan.metrics {
            Some(metrics) => Some(metrics@),
            None => None,
        },
        boundary: match plan.boundary {
            Some(boundary) => Some(boundary@),
            None => None,
        },
        children: Seq::new(
            plan.children@.len(),
            |i: int|
                if 0 <= i < plan.children@.len() {
                    executed_view(plan.children@[i])
                } else {
                    arbitrary()
                },
        ),
    }
}

impl View for ExecutedPlan {
    type V = ExecutedView;

    open spec fn view(&self) -> ExecutedView {
        executed_view(*self)
    }
}

pub open spec fn executed_views(plans: Seq<ExecutedPlan>) -> Seq<ExecutedView> {
    Seq::new(plans.len(), |i: int| plans[i]@)
}

/// The collections of all the network boundaries in a plan are well formed.
pub open spec fn collections_wf(plan: ExecutedPlan) -> bool
    decreases plan,
{
    &&& plan.boundary matches Some(boundary) ==> boundary.metrics_collection.wf()
    &&& forall|i: int|
        0 <= i < plan.children@.len() ==> collections_wf(#[trigger] plan.children@[i])
}

pub(crate) proof fn lemma_executed_children(plan: ExecutedPlan)
    ensures
        plan@.children == executed_views(plan.children@),
{
    assert(plan@.children =~= executed_views(plan.children@));
}

/// The number of nodes of a plan down to the network boundaries, which count too.
pub open spec fn nodes_to_boundaries(plan: ExecutedView) -> nat
    decreases plan,
{
    if plan.boundary is Some {
        1
    } else {
        1 + all_nodes_to_boundaries(plan.children)
    }
}

pub open spec fn all_nodes_to_boundaries(plans: Seq<ExecutedView>) -> nat
    decreases plans,
{
    if plans.len() == 0 {
        0
    } else {
        all_nodes_to_boundaries(plans.drop_last()) + nodes_to_boundaries(plans.last())
    }
}

} // verus!
