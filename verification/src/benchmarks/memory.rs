use crate::distributed_planner::insert_broadcast::{over, put_over};
use crate::distributed_planner::plan::{
    plan_views, runs_view, CardinalityEffect, Node, NodeKind, Plan, PlanView,
};
use crate::text::same_text;
use vstd::prelude::*;

verus! {

/// Tells whether data may be loaded because the caches are being filled.
#[derive(Debug, Clone, Copy, PartialEq, Eq, Structural)]
pub struct WarmingUpMarker {
    pub is_warming_up: bool,
}

impl Default for WarmingUpMarker {
    /// The caches are full.
    fn default() -> (marker: Self)
        ensures
            !marker.is_warming_up,
    {
        WarmingUpMarker { is_warming_up: false }
    }
}

impl WarmingUpMarker {
    /// The caches are being filled.
    pub fn warming_up() -> (marker: Self)
        ensures
            marker.is_warming_up,
    {
        WarmingUpMarker { is_warming_up: true }
    }
}

/// Why cached data cannot be used.
#[derive(Debug, PartialEq, Eq)]
pub enum CacheError {
    NotWarmedUp,
    NotCached,
    UnsupportedProto(String),
}

/// The text for a [CacheError], where `shown` is the text for a name that is not expected.
pub open spec fn cache_error_text(error: CacheError, shown: Seq<char>) -> Seq<char> {
    match error {
        CacheError::NotWarmedUp => "InMemoryCacheExec is not yet warmed up"@,
        CacheError::NotCached => "no InMemoryDataSourceExec"@,
        CacheError::UnsupportedProto(_) => "unsupported InMemoryDataSourceExec proto: "@ + shown,
    }
}

impl CacheError {
    /// The text of the error. `shown` is the text for a name that is not expected.
    pub fn message(&self, shown: &str) -> (text: String)
        ensures
            text@ == cache_error_text(*self, shown@),
    {
        let mut text = String::new();
        match self {
            CacheError::NotWarmedUp => {
                text.push_str("InMemoryCacheExec is not yet warmed up");
            },
            CacheError::NotCached => {
                text.push_str("no InMemoryDataSourceExec");
            },
            CacheError::UnsupportedProto(_) => {
                text.push_str("unsupported InMemoryDataSourceExec proto: ");
                text.push_str(shown);
            },
        }
        proof {
            assert(text@ =~= cache_error_text(*self, shown@));
        }
        text
    }
}

/// Where the data of a partition comes from.
#[derive(Debug, Clone, Copy, PartialEq, Eq, Structural)]
pub enum CacheEntry {
    /// There is a place for it.
    Existing,
    /// A place for it is made.
    Created,
}

/// The name of the node that keeps data in memory.
pub const CACHE_EXEC_NAME: &'static str = "InMemoryDataSourceExec";

/// Keeps the data of the plan below in memory the first time that it is read.
#[derive(Debug, Clone, Copy, PartialEq, Eq, Structural)]
pub struct InMemoryCacheExec;

impl InMemoryCacheExec {
    /// The name of the node.
    pub fn name(&self) -> (name: &'static str)
        ensures
            name@ == CACHE_EXEC_NAME@,
    {
        CACHE_EXEC_NAME
    }

    /// Finds out where the data of a partition comes from. `present` tells whether there is a place for
    /// it already. A place is made only while the caches are being filled.
    pub fn find_entry(&self, present: bool, marker: Option<WarmingUpMarker>) -> (result: Result<
        CacheEntry,
        CacheError,
    >)
        ensures
            if present {
                result == Ok::<CacheEntry, CacheError>(CacheEntry::Existing)
            } else if marker matches Some(m) && m.is_warming_up {
                result == Ok::<CacheEntry, CacheError>(CacheEntry::Created)
            } else {
                result matches Err(CacheError::NotWarmedUp)
            },
    {
        if present {
            return Ok(CacheEntry::Existing);
        }
        let warming_up = match marker {
            Some(m) => m.is_warming_up,
            None => false,
        };
        if !warming_up {
            return Err(CacheError::NotWarmedUp);
        }
        Ok(CacheEntry::Created)
    }

    /// Shows the node.
    pub fn fmt_as(&self) -> (text: String)
        ensures
            text@ == CACHE_EXEC_NAME@ + "\n"@,
    {
        let mut text = String::new();
        text.push_str(CACHE_EXEC_NAME);
        text.push_str("\n");
        proof {
            assert(text@ =~= CACHE_EXEC_NAME@ + "\n"@);
        }
        text
    }
}

/// Sends the nodes that keep data in memory, and receives them.
#[derive(Debug, Clone, Copy, PartialEq, Eq, Structural)]
pub struct InMemoryCacheExecCodec;

impl InMemoryCacheExecCodec {
    /// Reads a node from the name in its message. It stands over the first plan that came beside it.
    pub fn try_decode(&self, name: &str) -> (result: Result<InMemoryCacheExec, CacheError>)
        ensures
            if name@ == CACHE_EXEC_NAME@ {
                result == Ok::<InMemoryCacheExec, CacheError>(InMemoryCacheExec)
            } else {
                result matches Err(CacheError::UnsupportedProto(n)) && n@ == name@
            },
    {
        if !same_text(name, CACHE_EXEC_NAME) {
            return Err(CacheError::UnsupportedProto(name.to_owned()));
        }
        Ok(InMemoryCacheExec)
    }

    /// The name in the message of a node, which must be one that keeps data in memory.
    pub fn try_encode(&self, node: &Node) -> (result: Result<&'static str, CacheError>)
        ensures
            if node.kind is InMemoryCache {
                result matches Ok(name) && name@ == CACHE_EXEC_NAME@
            } else {
                result matches Err(CacheError::NotCached)
            },
    {
        if !matches!(node.kind, NodeKind::InMemoryCache) {
            return Err(CacheError::NotCached);
        }
        Ok(CACHE_EXEC_NAME)
    }
}

/// The node that keeps the data of another in memory.
pub open spec fn cache_node(node: Node) -> Node {
    Node {
        id: None,
        kind: NodeKind::InMemoryCache,
        partitioning: node.partitioning,
        cardinality_effect: CardinalityEffect::Unknown,
        estimation: None,
    }
}

/// A plan in which the data of every leaf is kept in memory.
pub open spec fn with_caches(plan: PlanView) -> PlanView
    decreases plan,
{
    if plan.children.len() == 0 {
        over(cache_node(plan.node), plan)
    } else {
        PlanView {
            node: plan.node,
            task_idx_map: plan.task_idx_map,
            children: Seq::new(
                plan.children.len(),
                |i: int|
                    if 0 <= i < plan.children.len() {
                        with_caches(plan.children[i])
                    } else {
                        arbitrary()
                    },
            ),
        }
    }
}

fn insert_caches(plan: Plan, Ghost(view): Ghost<PlanView>) -> (result: Plan)
    requires
        view == plan@,
    ensures
        result@ == with_caches(view),
    decreases view,
{
    proof {
        assert(plan@.children =~= plan_views(plan.children@));
    }
    if plan.children.len() == 0 {
        let node = Node {
            id: None,
            kind: NodeKind::InMemoryCache,
            partitioning: plan.node.partitioning,
            cardinality_effect: CardinalityEffect::Unknown,
            estimation: None,
        };
        return put_over(node, plan);
    }
    let mut children: Vec<Plan> = Vec::new();
    for child in it: plan.children
        invariant
            plan_views(it.seq()) == view.children,
            view.children.len() > 0,
            children@.len() == it.index(),
            forall|j: int|
                0 <= j < it.index() ==> (#[trigger] children@[j])@ == with_caches(view).children[j],
    {
        let ghost below = child@;
        proof {
            assert(below == view.children[it.index() as int]);
        }
        let result = insert_caches(child, Ghost(below));
        children.push(result);
    }
    let result = Plan { node: plan.node, task_idx_map: plan.task_idx_map, children };
    proof {
        assert(result@.children =~= with_caches(view).children);
        assert(result@.task_idx_map == runs_view(result.task_idx_map@));
    }
    result
}

/// Keeps the data of every leaf of a plan in memory.
#[derive(Debug, Clone, Copy, PartialEq, Eq, Structural)]
pub struct InMemoryDataSourceRule;

impl InMemoryDataSourceRule {
    /// Puts a node that keeps data in memory over every leaf of a plan.
    pub fn optimize(&self, plan: Plan) -> (result: Plan)
        ensures
            result@ == with_caches(plan@),
    {
        let ghost view = plan@;
        insert_caches(plan, Ghost(view))
    }

    /// The name of the rule.
    pub fn name(&self) -> (name: &'static str)
        ensures
            name@ == "InMemoryDataSourceRule"@,
    {
        "InMemoryDataSourceRule"
    }

    /// The rule keeps the columns of the plan, and says so.
    pub fn schema_check(&self) -> (check: bool)
        ensures
            check,
    {
        true
    }
}

/// Whether every leaf of a plan is read through a node that keeps its data in memory.
pub open spec fn leaves_are_cached(plan: PlanView) -> bool
    decreases plan,
{
    plan.children.len() > 0 && forall|i: int|
        #![trigger plan.children[i]]
        0 <= i < plan.children.len() ==> (plan.node.kind is InMemoryCache || leaves_are_cached(
            plan.children[i],
        ))
}

/// Every leaf is read through a node that keeps its data in memory.
pub proof fn every_leaf_is_cached(plan: PlanView)
    ensures
        leaves_are_cached(with_caches(plan)),
    decreases plan,
{
    let result = with_caches(plan);
    if plan.children.len() > 0 {
        assert forall|i: int|
            #![trigger result.children[i]]
            0 <= i < result.children.len() implies leaves_are_cached(result.children[i]) by {
            every_leaf_is_cached(plan.children[i]);
        }
    }
}

/// A plan without the nodes that keep the data of leaves in memory.
pub open spec fn without_caches(plan: PlanView) -> PlanView
    decreases plan,
{
    if plan.node.kind is InMemoryCache && plan.children.len() == 1
        && plan.children[0].children.len() == 0 {
        plan.children[0]
    } else {
        PlanView {
            node: plan.node,
            task_idx_map: plan.task_idx_map,
            children: Seq::new(
                plan.children.len(),
                |i: int|
                    if 0 <= i < plan.children.len() {
                        without_caches(plan.children[i])
                    } else {
                        arbitrary()
                    },
            ),
        }
    }
}

/// Keeping the data of leaves in memory adds nodes over the leaves and changes nothing else: without them
/// the plan is as before. A plan has as many partitions as before.
pub proof fn caches_change_nothing_else(plan: PlanView)
    ensures
        without_caches(with_caches(plan)) == plan,
        with_caches(plan).node.partitioning == plan.node.partitioning,
    decreases plan,
{
    let cached = with_caches(plan);
    if plan.children.len() > 0 {
        assert forall|i: int| 0 <= i < plan.children.len() implies without_caches(
            cached.children[i],
        ) == #[trigger] plan.children[i] by {
            caches_change_nothing_else(plan.children[i]);
            assert(cached.children[i] == with_caches(plan.children[i]));
        }
        assert(cached.children[0] == with_caches(plan.children[0]));
        assert(cached.children[0].children.len() > 0);
        assert(without_caches(cached).children =~= plan.children);
    }
}

} // verus!
