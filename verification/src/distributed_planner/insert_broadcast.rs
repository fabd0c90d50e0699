use crate::distributed_planner::plan::{
    plan_views, runs_view, CardinalityEffect, JoinType, Node, NodeKind, Partitioning,
    PartitionMode, Plan, PlanView,
};
use crate::distributed_planner::plan_annotator::PlannerConfig;
use vstd::prelude::*;

verus! {

/// Whether the rows that a join puts out are driven by its probe side. A join that can put out rows
/// of the build side on its own would put them out once for each task that the build side is sent to.
pub open spec fn driven_by_probe_side(join_type: JoinType) -> bool {
    join_type is Inner || join_type is Right || join_type is RightSemi || join_type is RightAnti
        || join_type is RightMark
}

/// Whether the build side of a join can be sent to all of its tasks.
pub open spec fn can_broadcast(kind: NodeKind) -> bool {
    kind matches NodeKind::HashJoin { mode, join_type } && mode is CollectLeft
        && driven_by_probe_side(join_type)
}

fn is_broadcastable(kind: NodeKind) -> (yes: bool)
    ensures
        yes == can_broadcast(kind),
{
    match kind {
        NodeKind::HashJoin { mode, join_type } => match mode {
            PartitionMode::CollectLeft => match join_type {
                JoinType::Inner => true,
                JoinType::Right => true,
                JoinType::RightSemi => true,
                JoinType::RightAnti => true,
                JoinType::RightMark => true,
                _ => false,
            },
            _ => false,
        },
        _ => false,
    }
}

/// A node that hands `partitions` partitions to a number of consumers that is not known yet.
pub open spec fn pending_broadcast(partitions: usize) -> Node {
    Node {
        id: None,
        kind: NodeKind::Broadcast { consumer_task_count: 1 },
        partitioning: Partitioning::UnknownPartitioning(partitions),
        cardinality_effect: CardinalityEffect::Unknown,
        estimation: None,
    }
}

/// A node that merges all partitions into one.
pub open spec fn merging_node() -> Node {
    Node {
        id: None,
        kind: NodeKind::CoalescePartitions,
        partitioning: Partitioning::UnknownPartitioning(1),
        cardinality_effect: CardinalityEffect::Equal,
        estimation: None,
    }
}

pub(crate) fn new_merging_node() -> (node: Node)
    ensures
        node == merging_node(),
{
    Node {
        id: None,
        kind: NodeKind::CoalescePartitions,
        partitioning: Partitioning::UnknownPartitioning(1),
        cardinality_effect: CardinalityEffect::Equal,
        estimation: None,
    }
}

/// A plan with one child.
pub open spec fn over(node: Node, child: PlanView) -> PlanView {
    PlanView { node, task_idx_map: Seq::empty(), children: seq![child] }
}

/// The build side of a join whose build side is sent to all tasks: what is sent, and a merge of what
/// arrives. A merge that was there before is done after the sending.
pub open spec fn broadcast_build_side(build: PlanView) -> PlanView
    decreases build, 1int,
{
    if build.node.kind is CoalescePartitions && build.children.len() > 0 {
        over(
            merging_node(),
            over(
                pending_broadcast(build.children[0].node.partitioning.count()),
                with_broadcasts(build.children[0]),
            ),
        )
    } else {
        over(
            merging_node(),
            over(pending_broadcast(build.node.partitioning.count()), with_broadcasts(build)),
        )
    }
}

/// A plan in which every join whose build side can be sent to all of its tasks does so.
pub open spec fn with_broadcasts(plan: PlanView) -> PlanView
    decreases plan, 0int,
{
    PlanView {
        node: plan.node,
        task_idx_map: plan.task_idx_map,
        children: Seq::new(
            plan.children.len(),
            |i: int|
                if 0 <= i < plan.children.len() {
                    if i == 0 && can_broadcast(plan.node.kind) {
                        broadcast_build_side(plan.children[i])
                    } else {
                        with_broadcasts(plan.children[i])
                    }
                } else {
                    arbitrary()
                },
        ),
    }
}

/// What a plan becomes before the places where data crosses the network are looked for.
pub open spec fn broadcasts_inserted(plan: PlanView, cfg: PlannerConfig) -> PlanView {
    if cfg.broadcast_joins {
        with_broadcasts(plan)
    } else {
        plan
    }
}

proof fn lemma_plan_children(plan: Plan)
    ensures
        plan@.children == plan_views(plan.children@),
        plan@.node == plan.node,
        plan@.task_idx_map == runs_view(plan.task_idx_map@),
{
    assert(plan@.children =~= plan_views(plan.children@));
}

pub(crate) fn put_over(node: Node, child: Plan) -> (plan: Plan)
    ensures
        plan@ == over(node, child@),
{
    let mut children: Vec<Plan> = Vec::new();
    let ghost below = child@;
    children.push(child);
    let plan = Plan { node, task_idx_map: Vec::new(), children };
    proof {
        lemma_plan_children(plan);
        assert(plan@.children =~= seq![below]);
        assert(plan@.task_idx_map =~= Seq::empty());
    }
    plan
}

fn insert_into_build_side(build: Plan, Ghost(view): Ghost<PlanView>) -> (result: Plan)
    requires
        view == build@,
    ensures
        result@ == broadcast_build_side(view),
    decreases view, 1int,
{
    proof {
        lemma_plan_children(build);
    }
    let mut input = build;
    let merges = match input.node.kind {
        NodeKind::CoalescePartitions => true,
        _ => false,
    };
    if merges && input.children.len() > 0 {
        input = input.children.swap_remove(0);
        proof {
            assert(input@ == view.children[0]);
        }
    }
    let partitions: usize = input.node.partitioning.partition_count();
    let broadcast = Node {
        id: None,
        kind: NodeKind::Broadcast { consumer_task_count: 1 },
        partitioning: Partitioning::UnknownPartitioning(partitions),
        cardinality_effect: CardinalityEffect::Unknown,
        estimation: None,
    };
    let ghost below = input@;
    let input = insert_broadcasts(input, Ghost(below));
    put_over(new_merging_node(), put_over(broadcast, input))
}

fn insert_broadcasts(plan: Plan, Ghost(view): Ghost<PlanView>) -> (result: Plan)
    requires
        view == plan@,
    ensures
        result@ == with_broadcasts(view),
    decreases view, 0int,
{
    proof {
        lemma_plan_children(plan);
    }
    let broadcast = is_broadcastable(plan.node.kind);
    let mut children: Vec<Plan> = Vec::new();
    let mut first = true;
    for child in it: plan.children
        invariant
            plan_views(it.seq()) == view.children,
            broadcast == can_broadcast(view.node.kind),
            children@.len() == it.index(),
            first == (it.index() == 0),
            forall|j: int|
                0 <= j < it.index() ==> (#[trigger] children@[j])@ == with_broadcasts(
                    view,
                ).children[j],
    {
        proof {
            assert(child@ == view.children[it.index() as int]);
        }
        let ghost below = child@;
        if first && broadcast {
            let result = insert_into_build_side(child, Ghost(below));
            children.push(result);
        } else {
            let result = insert_broadcasts(child, Ghost(below));
            children.push(result);
        }
        first = false;
    }
    let result = Plan { node: plan.node, task_idx_map: plan.task_idx_map, children };
    proof {
        lemma_plan_children(result);
        assert(result@.children =~= with_broadcasts(view).children);
    }
    result
}

/// Makes every join whose build side can be sent to all of its tasks do so, if joins are
/// distributed in that way at all.
pub fn insert_broadcast_execs(plan: Plan, cfg: &PlannerConfig) -> (result: Plan)
    ensures
        result@ == broadcasts_inserted(plan@, *cfg),
{
    if !cfg.broadcast_joins {
        return plan;
    }
    let ghost view = plan@;
    insert_broadcasts(plan, Ghost(view))
}

/// Whether a plan holds no join whose build side can be sent to all of its tasks.
pub open spec fn no_candidates(plan: PlanView) -> bool
    decreases plan,
{
    &&& !can_broadcast(plan.node.kind)
    &&& forall|i: int| 0 <= i < plan.children.len() ==> no_candidates(#[trigger] plan.children[i])
}

/// A plan in which every hash join puts out rows of its build side, or spreads its build side over
/// the tasks, is left as it is.
pub proof fn build_side_joins_are_left_alone(plan: PlanView, cfg: PlannerConfig)
    requires
        no_candidates(plan),
    ensures
        broadcasts_inserted(plan, cfg) == plan,
{
    lemma_left_alone(plan);
}

proof fn lemma_left_alone(plan: PlanView)
    requires
        no_candidates(plan),
    ensures
        with_broadcasts(plan) == plan,
    decreases plan,
{
    assert forall|i: int| 0 <= i < plan.children.len() implies with_broadcasts(plan).children[i]
        == #[trigger] plan.children[i] by {
        lemma_left_alone(plan.children[i]);
    }
    assert(with_broadcasts(plan).children =~= plan.children);
}

/// A row that a join puts out: the rows of the two sides that it is made of, and whether the other side
/// has a match, where the join tells that.
#[verifier::ext_equal]
pub struct JoinedRow {
    pub build: Option<int>,
    pub probe: Option<int>,
    pub mark: Option<bool>,
}

/// The rows that a join puts out for one row of the probe side.
pub open spec fn rows_of_probe(
    join_type: JoinType,
    build: Seq<int>,
    probe: int,
    pairs: spec_fn(int, int) -> bool,
) -> Seq<JoinedRow> {
    let matching = build.filter(|b: int| pairs(b, probe));
    let alone = JoinedRow { build: None, probe: Some(probe), mark: None };
    let joined = matching.map_values(
        |b: int| JoinedRow { build: Some(b), probe: Some(probe), mark: None },
    );
    match join_type {
        JoinType::Inner | JoinType::Left => joined,
        JoinType::Right | JoinType::Full => if matching.len() == 0 {
            seq![alone]
        } else {
            joined
        },
        JoinType::RightSemi => if matching.len() == 0 {
            Seq::empty()
        } else {
            seq![alone]
        },
        JoinType::RightAnti => if matching.len() == 0 {
            seq![alone]
        } else {
            Seq::empty()
        },
        JoinType::RightMark => seq![JoinedRow { mark: Some(matching.len() > 0), ..alone }],
        JoinType::LeftSemi | JoinType::LeftAnti | JoinType::LeftMark => Seq::empty(),
    }
}

/// The rows that a join puts out for one row of the build side, on its own account.
pub open spec fn rows_of_build(
    join_type: JoinType,
    build: int,
    probe: Seq<int>,
    pairs: spec_fn(int, int) -> bool,
) -> Seq<JoinedRow> {
    let found = exists|i: int| 0 <= i < probe.len() && #[trigger] pairs(build, probe[i]);
    let alone = JoinedRow { build: Some(build), probe: None, mark: None };
    match join_type {
        JoinType::Left | JoinType::Full | JoinType::LeftAnti => if found {
            Seq::empty()
        } else {
            seq![alone]
        },
        JoinType::LeftSemi => if found {
            seq![alone]
        } else {
            Seq::empty()
        },
        JoinType::LeftMark => seq![JoinedRow { mark: Some(found), ..alone }],
        _ => Seq::empty(),
    }
}

/// The rows that a join puts out for the rows of the probe side.
pub open spec fn rows_of_probes(
    join_type: JoinType,
    build: Seq<int>,
    probe: Seq<int>,
    pairs: spec_fn(int, int) -> bool,
) -> Seq<JoinedRow>
    decreases probe.len(),
{
    if probe.len() == 0 {
        Seq::empty()
    } else {
        rows_of_probes(join_type, build, probe.drop_last(), pairs) + rows_of_probe(
            join_type,
            build,
            probe.last(),
            pairs,
        )
    }
}

/// The rows that a join puts out for the rows of the build side, on their own account.
pub open spec fn rows_of_builds(
    join_type: JoinType,
    build: Seq<int>,
    probe: Seq<int>,
    pairs: spec_fn(int, int) -> bool,
) -> Seq<JoinedRow>
    decreases build.len(),
{
    if build.len() == 0 {
        Seq::empty()
    } else {
        rows_of_builds(join_type, build.drop_last(), probe, pairs) + rows_of_build(
            join_type,
            build.last(),
            probe,
            pairs,
        )
    }
}

/// All the rows that a join of two sides puts out. `pairs` says which rows belong together.
pub open spec fn rows_of_join(
    join_type: JoinType,
    build: Seq<int>,
    probe: Seq<int>,
    pairs: spec_fn(int, int) -> bool,
) -> Seq<JoinedRow> {
    rows_of_probes(join_type, build, probe, pairs) + rows_of_builds(
        join_type,
        build,
        probe,
        pairs,
    )
}

/// Whether a join puts out the same rows when two tasks run it, each on the whole build side and on a
/// part of the probe side, whatever the rows are.
pub open spec fn can_share_build_side(join_type: JoinType) -> bool {
    forall|build: Seq<int>, first: Seq<int>, second: Seq<int>, pairs: spec_fn(int, int) -> bool|
        #[trigger] rows_of_join(join_type, build, first + second, pairs).to_multiset() == (
        rows_of_join(join_type, build, first, pairs) + rows_of_join(
            join_type,
            build,
            second,
            pairs,
        )).to_multiset()
}

proof fn lemma_probes_concat(
    join_type: JoinType,
    build: Seq<int>,
    first: Seq<int>,
    second: Seq<int>,
    pairs: spec_fn(int, int) -> bool,
)
    ensures
        rows_of_probes(join_type, build, first + second, pairs) == rows_of_probes(
            join_type,
            build,
            first,
            pairs,
        ) + rows_of_probes(join_type, build, second, pairs),
    decreases second.len(),
{
    if second.len() == 0 {
        assert(first + second =~= first);
    } else {
        assert((first + second).drop_last() =~= first + second.drop_last());
        lemma_probes_concat(join_type, build, first, second.drop_last(), pairs);
    }
}

proof fn lemma_no_builds(
    join_type: JoinType,
    build: Seq<int>,
    probe: Seq<int>,
    pairs: spec_fn(int, int) -> bool,
)
    requires
        join_type is Inner || join_type is Right || join_type is RightSemi
            || join_type is RightAnti || join_type is RightMark,
    ensures
        rows_of_builds(join_type, build, probe, pairs) == Seq::<JoinedRow>::empty(),
    decreases build.len(),
{
    if build.len() > 0 {
        lemma_no_builds(join_type, build.drop_last(), probe, pairs);
    }
}

/// The build side can be shared by those joins that put out no row of it on its own account: not by left,
/// left semi, left anti, left mark and full joins, and by all the others.
pub proof fn build_sides_can_be_shared(join_type: JoinType)
    ensures
        can_share_build_side(join_type) <==> !(join_type is Left || join_type is LeftSemi
            || join_type is LeftAnti || join_type is LeftMark || join_type is Full),
{
    broadcast use vstd::seq_lib::group_to_multiset_ensures;

    if join_type is Left || join_type is LeftSemi || join_type is LeftAnti || join_type is LeftMark
        || join_type is Full {
        let pairs = |b: int, p: int| true;
        let build = seq![0int];
        let part = if join_type is LeftSemi {
            seq![0int]
        } else {
            Seq::empty()
        };
        let whole = rows_of_join(join_type, build, part + part, pairs);
        let one = rows_of_join(join_type, build, part, pairs);
        lemma_probes_concat(join_type, build, part, part, pairs);
        reveal_with_fuel(rows_of_builds, 2);
        reveal_with_fuel(rows_of_probes, 2);
        assert(build.drop_last() =~= Seq::empty());
        if join_type is LeftSemi {
            assert(pairs(0, part[0]));
            assert(pairs(0, (part + part)[0]));
            assert(part.drop_last() =~= Seq::empty());
        }
        assert(rows_of_builds(join_type, build, part, pairs).len() == 1);
        assert(rows_of_builds(join_type, build, part + part, pairs).len() == 1);
        assert(rows_of_probes(join_type, build, part, pairs).len() == 0);
        assert(whole.len() == 1 && (one + one).len() == 2);
        assert(whole.to_multiset().len() == 1 && (one + one).to_multiset().len() == 2);
        assert(!can_share_build_side(join_type));
    } else {
        assert forall|
            build: Seq<int>,
            first: Seq<int>,
            second: Seq<int>,
            pairs: spec_fn(int, int) -> bool,
        |
            #[trigger] rows_of_join(join_type, build, first + second, pairs).to_multiset() == (
            rows_of_join(join_type, build, first, pairs) + rows_of_join(
                join_type,
                build,
                second,
                pairs,
            )).to_multiset() by {
            lemma_probes_concat(join_type, build, first, second, pairs);
            lemma_no_builds(join_type, build, first + second, pairs);
            lemma_no_builds(join_type, build, first, pairs);
            lemma_no_builds(join_type, build, second, pairs);
            assert(rows_of_join(join_type, build, first + second, pairs) =~= rows_of_join(
                join_type,
                build,
                first,
                pairs,
            ) + rows_of_join(join_type, build, second, pairs));
        }
    }
}

/// Whether a plan is what the build side of a join is sent as: merged by each task from what is kept for
/// the tasks, partition by partition, of the given plan.
pub open spec fn sends(plan: PlanView, sent: PlanView) -> bool {
    &&& plan.node.id is None && plan.node.estimation is None
    &&& plan.node.kind is CoalescePartitions
    &&& plan.node.partitioning.count() == 1
    &&& plan.children.len() == 1
    &&& plan.children[0].node.id is None && plan.children[0].node.estimation is None
    &&& plan.children[0].node.kind == (NodeKind::Broadcast { consumer_task_count: 1 })
    &&& plan.children[0].node.partitioning == Partitioning::UnknownPartitioning(
        sent.node.partitioning.count(),
    )
    &&& plan.children[0].children == seq![sent]
}

/// Whether one plan is another in which the build sides are sent of exactly those joins that collect
/// their build side and can share it. Apart from that every node is in its place.
pub open spec fn shares_build_sides(before: PlanView, after: PlanView) -> bool
    decreases before,
{
    &&& after.node == before.node
    &&& after.task_idx_map == before.task_idx_map
    &&& after.children.len() == before.children.len()
    &&& forall|i: int|
        0 <= i < before.children.len() ==> {
            let child = #[trigger] before.children[i];
            if i == 0 && (before.node.kind matches NodeKind::HashJoin { mode, join_type } && mode
                == PartitionMode::CollectLeft && can_share_build_side(join_type)) {
                if child.node.kind is CoalescePartitions && child.children.len() > 0 {
                    exists|sent: PlanView| #[trigger]
                        sends(after.children[i], sent) && shares_build_sides(
                            child.children[0],
                            sent,
                        )
                } else {
                    exists|sent: PlanView| #[trigger]
                        sends(after.children[i], sent) && shares_build_sides(child, sent)
                }
            } else {
                shares_build_sides(child, after.children[i])
            }
        }
}

/// Sending build sides to all tasks keeps the result of every query: where joins are distributed in that
/// way, the build side of a join is sent if and only if the join collects it and the tasks together put
/// out the same rows. Where they are not, nothing is sent.
pub proof fn sent_build_sides_keep_the_result(plan: PlanView, cfg: PlannerConfig)
    ensures
        cfg.broadcast_joins ==> shares_build_sides(plan, broadcasts_inserted(plan, cfg)),
        !cfg.broadcast_joins ==> broadcasts_inserted(plan, cfg) == plan,
{
    lemma_shares_build_sides(plan);
}

proof fn lemma_sends(build: PlanView)
    ensures
        if build.node.kind is CoalescePartitions && build.children.len() > 0 {
            sends(broadcast_build_side(build), with_broadcasts(build.children[0]))
        } else {
            sends(broadcast_build_side(build), with_broadcasts(build))
        },
{
    let input = if build.node.kind is CoalescePartitions && build.children.len() > 0 {
        build.children[0]
    } else {
        build
    };
    assert(with_broadcasts(input).node == input.node);
    let kept = over(
        pending_broadcast(input.node.partitioning.count()),
        with_broadcasts(input),
    );
    assert(broadcast_build_side(build) == over(merging_node(), kept));
}

proof fn lemma_shares_build_sides(plan: PlanView)
    ensures
        shares_build_sides(plan, with_broadcasts(plan)),
    decreases plan,
{
    let after = with_broadcasts(plan);
    if let NodeKind::HashJoin { mode, join_type } = plan.node.kind {
        build_sides_can_be_shared(join_type);
    }
    assert forall|i: int| 0 <= i < plan.children.len() implies ({
        let child = #[trigger] plan.children[i];
        if i == 0 && (plan.node.kind matches NodeKind::HashJoin { mode, join_type } && mode
            == PartitionMode::CollectLeft && can_share_build_side(join_type)) {
            if child.node.kind is CoalescePartitions && child.children.len() > 0 {
                exists|sent: PlanView| #[trigger]
                    sends(after.children[i], sent) && shares_build_sides(child.children[0], sent)
            } else {
                exists|sent: PlanView| #[trigger]
                    sends(after.children[i], sent) && shares_build_sides(child, sent)
            }
        } else {
            shares_build_sides(child, after.children[i])
        }
    }) by {
        let child = plan.children[i];
        lemma_shares_build_sides(child);
        if i == 0 && can_broadcast(plan.node.kind) {
            assert(after.children[i] == broadcast_build_side(child));
            lemma_sends(child);
            if child.node.kind is CoalescePartitions && child.children.len() > 0 {
                let sent = with_broadcasts(child.children[0]);
                lemma_shares_build_sides(child.children[0]);
                assert(sends(after.children[i], sent));
            } else {
                assert(sends(after.children[i], with_broadcasts(child)));
            }
        }
    }
}

} // verus!
