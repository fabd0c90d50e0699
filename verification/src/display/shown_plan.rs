use crate::protobuf::distributed_codec::NetworkKind;
use vstd::prelude::*;

verus! {

/// The stage below a network boundary, as far as it is shown.
#[derive(Debug, Clone, Copy, PartialEq, Eq, Structural)]
pub struct ShownStage {
    pub kind: NetworkKind,
    pub num: usize,
    pub n_tasks: usize,
}

/// What a node of a plan is, as far as it is shown.
#[derive(Debug, Clone, Copy, PartialEq, Eq, Structural)]
pub enum ShownRole {
    Plain,
    /// Shows each task only its share of the partitions below.
    Isolator,
    /// Will read from another stage, which is not known yet.
    Pending,
    /// Reads from another stage. The plan below it is that of the stage, where it is at hand.
    Boundary(ShownStage),
}

/// A plan, as far as it is shown.
#[derive(Debug)]
pub struct ShownPlan {
    pub name: String,
    /// The node in one line, without the end of the line.
    pub line: String,
    pub partitions: usize,
    /// Whether the rows are spread by a hash.
    pub hash: bool,
    pub role: ShownRole,
    /// The metrics of the node in one line, if it has any.
    pub metrics: Option<String>,
    pub children: Vec<ShownPlan>,
}

/// The contents of a [ShownPlan].
#[verifier::ext_equal]
pub struct ShownView {
    pub name: Seq<char>,
    pub line: Seq<char>,
    pub partitions: usize,
    pub hash: bool,
    pub role: ShownRole,
    pub metrics: Option<Seq<char>>,
    pub children: Seq<ShownView>,
}

pub open spec fn shown_view(plan: ShownPlan) -> ShownView
    decreases plan,
{
    ShownView {
        name: plan.name@,
        line: plan.line@,
        partitions: plan.partitions,
        hash: plan.hash,
        role: plan.role,
        metrics: match plan.metrics {
            Some(m) => Some(m@),
            None => None,
        },
        children: Seq::new(
            plan.children@.len(),
            |i: int|
                if 0 <= i < plan.children@.len() {
                    shown_view(plan.children@[i])
                } else {
                    arbitrary()
                },
        ),
    }
}

impl View for ShownPlan {
    type V = ShownView;

    open spec fn view(&self) -> ShownView {
        shown_view(*self)
    }
}

/// The contents of some plans.
pub open spec fn shown_views(plans: Seq<ShownPlan>) -> Seq<ShownView> {
    Seq::new(plans.len(), |i: int| plans[i]@)
}

pub(crate) proof fn lemma_shown_children(plan: ShownPlan)
    ensures
        plan@.children == shown_views(plan.children@),
        plan@.name == plan.name@,
        plan@.line == plan.line@,
        plan@.partitions == plan.partitions,
        plan@.hash == plan.hash,
        plan@.role == plan.role,
{
    assert(plan@.children =~= shown_views(plan.children@));
}

/// The number of nodes of a plan.
pub open spec fn nodes(plan: ShownView) -> nat
    decreases plan,
{
    1 + all_nodes(plan.children)
}

/// The number of nodes of some plans.
pub open spec fn all_nodes(plans: Seq<ShownView>) -> nat
    decreases plans,
{
    if plans.len() == 0 {
        0
    } else {
        all_nodes(plans.drop_last()) + nodes(plans.last())
    }
}

pub(crate) proof fn lemma_all_nodes_concat(a: Seq<ShownView>, b: Seq<ShownView>)
    ensures
        all_nodes(a + b) == all_nodes(a) + all_nodes(b),
    decreases b.len(),
{
    if b.len() == 0 {
        assert(a + b =~= a);
    } else {
        assert((a + b).drop_last() =~= a + b.drop_last());
        lemma_all_nodes_concat(a, b.drop_last());
    }
}

pub(crate) proof fn lemma_all_nodes_first(plans: Seq<ShownView>)
    requires
        plans.len() > 0,
    ensures
        all_nodes(plans) == nodes(plans[0]) + all_nodes(plans.drop_first()),
{
    let first = seq![plans[0]];
    assert(plans =~= first + plans.drop_first());
    lemma_all_nodes_concat(first, plans.drop_first());
    assert(first.drop_last() =~= Seq::empty());
    assert(all_nodes(first.drop_last()) == 0);
}

/// A node that is come to when a plan is walked level by level, with the name and the place of the
/// node above it.
#[verifier::ext_equal]
pub struct Visit {
    pub plan: ShownView,
    pub parent: Option<(Seq<char>, nat)>,
}

/// The kinds of nodes below which a walk does not go.
#[derive(Debug, Clone, Copy, PartialEq, Eq, Structural)]
pub enum WalkLimit {
    /// It does not go below a network boundary.
    Boundaries,
    /// It does not go below a shuffle or a coalesce, nor below one whose stage is not known yet.
    ShufflesAndCoalesces,
}

/// Whether a walk does not go below a node.
pub open spec fn stops(limit: WalkLimit, role: ShownRole) -> bool {
    match limit {
        WalkLimit::Boundaries => role is Boundary,
        WalkLimit::ShufflesAndCoalesces => match role {
            ShownRole::Boundary(stage) => !(stage.kind is Broadcast),
            ShownRole::Pending => true,
            _ => false,
        },
    }
}

fn walk_stops(limit: WalkLimit, role: ShownRole) -> (yes: bool)
    ensures
        yes == stops(limit, role),
{
    match limit {
        WalkLimit::Boundaries => match role {
            ShownRole::Boundary(_) => true,
            _ => false,
        },
        WalkLimit::ShufflesAndCoalesces => match role {
            ShownRole::Boundary(stage) => match stage.kind {
                NetworkKind::Broadcast => false,
                _ => true,
            },
            ShownRole::Pending => true,
            _ => false,
        },
    }
}

/// The nodes right below the node at the given place.
pub open spec fn visits_below(plan: ShownView, place: nat, limit: WalkLimit) -> Seq<Visit> {
    if stops(limit, plan.role) {
        Seq::empty()
    } else {
        Seq::new(
            plan.children.len(),
            |i: int| Visit { plan: plan.children[i], parent: Some((plan.name, place)) },
        )
    }
}

/// The plans that are visited.
pub open spec fn visited(visits: Seq<Visit>) -> Seq<ShownView> {
    Seq::new(visits.len(), |i: int| visits[i].plan)
}

/// The nodes that are come to level by level, from those in the queue on, where `place` nodes have
/// been come to before.
pub open spec fn walk_from(queue: Seq<Visit>, place: nat, limit: WalkLimit) -> Seq<Visit>
    decreases all_nodes(visited(queue)),
{
    if queue.len() == 0 {
        Seq::empty()
    } else {
        proof {
            lemma_queue_shrinks(queue, place + 1, limit);
        }
        seq![queue[0]] + walk_from(
            queue.drop_first() + visits_below(queue[0].plan, place + 1, limit),
            place + 1,
            limit,
        )
    }
}

/// Visiting a node leaves fewer nodes to be visited.
pub proof fn lemma_queue_shrinks(queue: Seq<Visit>, place: nat, limit: WalkLimit)
    requires
        queue.len() > 0,
    ensures
        all_nodes(visited(queue.drop_first() + visits_below(queue[0].plan, place, limit)))
            < all_nodes(visited(queue)),
{
    let rest = queue.drop_first();
    let below = visits_below(queue[0].plan, place, limit);
    lemma_all_nodes_first(visited(queue));
    assert(visited(queue).drop_first() =~= visited(rest));
    assert(visited(rest + below) =~= visited(rest) + visited(below));
    lemma_all_nodes_concat(visited(rest), visited(below));
    if !stops(limit, queue[0].plan.role) {
        assert(visited(below) =~= queue[0].plan.children);
    } else {
        assert(visited(below) =~= Seq::empty());
    }
}

/// The nodes of a plan, level by level from the top.
pub open spec fn walk(plan: ShownView, limit: WalkLimit) -> Seq<Visit> {
    walk_from(seq![Visit { plan, parent: None }], 0, limit)
}

/// A node that is come to when a plan is walked level by level. The place of the node above it is that
/// in the list of nodes, counted from one, or zero where there is none.
#[derive(Debug)]
pub struct Visited<'a> {
    pub plan: &'a ShownPlan,
    pub parent: Option<(&'a ShownPlan, usize)>,
}

/// What a list of nodes stands for.
pub open spec fn visits(list: Seq<Visited<'_>>) -> Seq<Visit> {
    Seq::new(
        list.len(),
        |i: int|
            Visit {
                plan: list[i].plan@,
                parent: match list[i].parent {
                    Some((above, place)) => Some((above@.name, place as nat)),
                    None => None,
                },
            },
    )
}

/// Lists the nodes of a plan, level by level from the top.
pub fn walk_plan<'a>(plan: &'a ShownPlan, limit: WalkLimit) -> (list: Vec<Visited<'a>>)
    ensures
        visits(list@) == walk(plan@, limit),
{
    let mut list: Vec<Visited<'a>> = Vec::new();
    list.push(Visited { plan, parent: None });
    let ghost start = seq![Visit { plan: plan@, parent: None::<(Seq<char>, nat)> }];
    let mut done: usize = 0;
    proof {
        assert(visits(list@) =~= start);
        assert(visits(list@).take(0) =~= Seq::empty());
        assert(visits(list@).skip(0) =~= start);
        assert(Seq::empty() + walk_from(start, 0, limit) =~= walk_from(start, 0, limit));
    }
    while done < list.len()
        invariant
            done <= list@.len(),
            walk(plan@, limit) == visits(list@).take(done as int) + walk_from(
                visits(list@).skip(done as int),
                done as nat,
                limit,
            ),
        decreases all_nodes(visited(visits(list@).skip(done as int))),
    {
        let ghost before = visits(list@);
        let ghost queue = before.skip(done as int);
        let n: usize = list.len();
        let node = list[done].plan;
        let place: usize = done + 1;
        proof {
            lemma_shown_children(*node);
            lemma_queue_shrinks(queue, place as nat, limit);
            assert(queue[0] == before[done as int]);
            assert(queue[0].plan == node@);
        }
        let ghost below = visits_below(node@, place as nat, limit);
        if !walk_stops(limit, node.role) {
            proof {
                assert(below.take(0) =~= Seq::empty());
                assert(before + below.take(0) =~= before);
            }
            for i in 0..node.children.len()
                invariant
                    node@.children == shown_views(node.children@),
                    node@.name == node.name@,
                    node@.role == node.role,
                    !stops(limit, node.role),
                    below == visits_below(node@, place as nat, limit),
                    visits(list@) == before + below.take(i as int),
            {
                let ghost so_far = visits(list@);
                list.push(Visited { plan: &node.children[i], parent: Some((node, place)) });
                proof {
                    assert(visits(list@) =~= so_far.push(below[i as int]));
                    assert(before + below.take(i + 1) =~= so_far.push(below[i as int]));
                }
            }
            proof {
                assert(below.take(node.children@.len() as int) =~= below);
            }
        } else {
            proof {
                assert(before + below =~= before);
            }
        }
        proof {
            let after = before + below;
            assert(visits(list@) == after);
            assert(after.skip(place as int) =~= queue.drop_first() + below);
            assert(after.take(place as int) =~= before.take(done as int).push(queue[0]));
            assert(before.take(done as int) + (seq![queue[0]] + walk_from(
                queue.drop_first() + below,
                place as nat,
                limit,
            )) =~= after.take(place as int) + walk_from(
                after.skip(place as int),
                place as nat,
                limit,
            ));
        }
        done = place;
    }
    proof {
        let all = visits(list@);
        assert(all.skip(done as int) =~= Seq::empty());
        assert(all.take(done as int) =~= all);
        assert(all + Seq::<Visit>::empty() =~= all);
    }
    list
}

/// The nodes of a plan, from the top down and from the first child to the last, without those below a
/// node where a walk stops.
pub open spec fn reached(plan: ShownView, limit: WalkLimit) -> Seq<ShownView>
    decreases plan,
{
    seq![plan] + if stops(limit, plan.role) {
        Seq::empty()
    } else {
        all_reached(plan.children, limit)
    }
}

/// The nodes of several plans.
pub open spec fn all_reached(plans: Seq<ShownView>, limit: WalkLimit) -> Seq<ShownView>
    decreases plans,
{
    if plans.len() == 0 {
        Seq::empty()
    } else {
        all_reached(plans.drop_last(), limit) + reached(plans.last(), limit)
    }
}

proof fn lemma_all_reached_concat(a: Seq<ShownView>, b: Seq<ShownView>, limit: WalkLimit)
    ensures
        all_reached(a + b, limit) == all_reached(a, limit) + all_reached(b, limit),
    decreases b.len(),
{
    if b.len() == 0 {
        assert(a + b =~= a);
        assert(all_reached(a, limit) + all_reached(b, limit) =~= all_reached(a, limit));
    } else {
        assert((a + b).drop_last() =~= a + b.drop_last());
        lemma_all_reached_concat(a, b.drop_last(), limit);
        assert(all_reached(a + b, limit) =~= all_reached(a, limit) + all_reached(b, limit));
    }
}

/// A walk comes to every node once: the nodes in the order of the walk are those in the order from the
/// top down.
pub proof fn every_node_is_visited_once(plan: ShownView, limit: WalkLimit)
    ensures
        visited(walk(plan, limit)).to_multiset() == reached(plan, limit).to_multiset(),
{
    let queue = seq![Visit { plan, parent: None }];
    lemma_walk_reaches(queue, 0, limit);
    let plans = visited(queue);
    assert(plans =~= seq![plan]);
    assert(plans.drop_last() =~= Seq::empty());
    assert(all_reached(plans.drop_last(), limit) =~= Seq::empty());
    assert(all_reached(plans, limit) =~= reached(plan, limit));
}

proof fn lemma_walk_reaches(queue: Seq<Visit>, place: nat, limit: WalkLimit)
    ensures
        visited(walk_from(queue, place, limit)).to_multiset() == all_reached(
            visited(queue),
            limit,
        ).to_multiset(),
    decreases all_nodes(visited(queue)),
{
    if queue.len() == 0 {
        assert(visited(walk_from(queue, place, limit)) =~= all_reached(visited(queue), limit));
    } else {
        let first = queue[0].plan;
        let one = seq![first];
        let rest = queue.drop_first();
        let below = visits_below(first, place + 1, limit);
        let after = walk_from(rest + below, place + 1, limit);
        lemma_queue_shrinks(queue, place + 1, limit);
        lemma_walk_reaches(rest + below, place + 1, limit);
        assert(visited(rest + below) =~= visited(rest) + visited(below));
        lemma_all_reached_concat(visited(rest), visited(below), limit);
        assert(visited(walk_from(queue, place, limit)) =~= one + visited(after));
        assert(visited(queue) =~= one + visited(rest));
        lemma_all_reached_concat(one, visited(rest), limit);
        assert(one.drop_last() =~= Seq::empty());
        assert(all_reached(one.drop_last(), limit) =~= Seq::empty());
        assert(all_reached(one, limit) =~= reached(first, limit));
        if stops(limit, first.role) {
            assert(visited(below) =~= Seq::empty());
            assert(reached(first, limit) =~= one + all_reached(visited(below), limit));
        } else {
            assert(visited(below) =~= first.children);
        }
        let a = all_reached(visited(rest), limit);
        let b = all_reached(visited(below), limit);
        vstd::seq_lib::lemma_multiset_commutative(one, visited(after));
        vstd::seq_lib::lemma_multiset_commutative(a, b);
        vstd::seq_lib::lemma_multiset_commutative(one + b, a);
        vstd::seq_lib::lemma_multiset_commutative(one, b);
        assert(all_reached(visited(queue), limit) =~= (one + b) + a);
        assert(one.to_multiset().add(a.to_multiset().add(b.to_multiset())) =~= one.to_multiset().add(
            b.to_multiset(),
        ).add(a.to_multiset()));
    }
}

/// Whether the node above each node is one of the first `n`, has the name and the place that are noted,
/// and does have the node below it.
pub open spec fn are_linked(list: Seq<Visit>, n: int) -> bool {
    forall|k: int|
        0 <= k < list.len() ==> match (#[trigger] list[k]).parent {
            Some((name, place)) => 1 <= place <= n && place <= list.len() && list[place - 1].plan.name
                == name && list[place - 1].plan.children.contains(list[k].plan),
            None => k == 0,
        }
}

/// What a walk notes of the node above a node is true, and only the node at the top has none above it.
pub proof fn visits_know_the_node_above(plan: ShownView, limit: WalkLimit)
    ensures
        are_linked(walk(plan, limit), walk(plan, limit).len() as int),
        walk(plan, limit).len() > 0,
        walk(plan, limit)[0].plan == plan,
{
    let queue = seq![Visit { plan, parent: None::<(Seq<char>, nat)> }];
    let none = Seq::<Visit>::empty();
    assert(none + queue =~= queue);
    lemma_walk_links(none, queue, limit);
    assert(none + walk_from(queue, 0, limit) =~= walk(plan, limit));
}

proof fn lemma_walk_links(done: Seq<Visit>, queue: Seq<Visit>, limit: WalkLimit)
    requires
        are_linked(done + queue, done.len() as int),
    ensures
        are_linked(
            done + walk_from(queue, done.len(), limit),
            (done + walk_from(queue, done.len(), limit)).len() as int,
        ),
    decreases all_nodes(visited(queue)),
{
    if queue.len() == 0 {
        assert(done + walk_from(queue, done.len(), limit) =~= done);
        assert(done + queue =~= done);
    } else {
        let first = queue[0];
        let place = done.len() + 1;
        let now = done.push(first);
        let rest = queue.drop_first();
        let below = visits_below(first.plan, place, limit);
        lemma_queue_shrinks(queue, place, limit);
        let list = now + (rest + below);
        assert forall|k: int| 0 <= k < list.len() implies match (#[trigger] list[k]).parent {
            Some((name, at)) => 1 <= at <= now.len() && at <= list.len() && list[at - 1].plan.name
                == name && list[at - 1].plan.children.contains(list[k].plan),
            None => k == 0,
        } by {
            if k < (done + queue).len() {
                assert(list[k] == (done + queue)[k]);
                if let Some((name, at)) = list[k].parent {
                    assert(list[at - 1] == (done + queue)[at - 1]);
                }
            } else {
                let i = k - (done + queue).len();
                assert(list[k] == below[i]);
                assert(list[place - 1] == first);
                assert(first.plan.children[i] == list[k].plan);
            }
        }
        lemma_walk_links(now, rest + below, limit);
        assert(done + walk_from(queue, done.len(), limit) =~= now + walk_from(
            rest + below,
            place,
            limit,
        ));
    }
}

} // verus!
