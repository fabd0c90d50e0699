use crate::distributed_planner::network_boundary::boundary_of;
use crate::distributed_planner::plan::NodeKind;
use crate::distributed_planner::staged_plan::{
    lemma_staged_children, staged_views, DistributeError, StagedPlan, StagedView, Step, StepView,
};
use vstd::prelude::*;

verus! {

/// How many rows are handled at a time.
#[derive(Debug, Clone, Copy, PartialEq, Eq, Structural)]
pub struct BatchConfig {
    /// Between workers.
    pub shuffle_batch_size: usize,
    /// Within a worker.
    pub batch_size: usize,
}

/// The size of the batches that a node gathers and the number of rows that it stops after, if it
/// gathers batches at all.
pub open spec fn gathers(step: StepView) -> Option<(usize, Option<usize>)> {
    match step {
        StepView::CoalesceBatches { target_batch_size, fetch } => Some((target_batch_size, fetch)),
        StepView::Node { node, .. } => match node.kind {
            NodeKind::CoalesceBatches { target_batch_size, fetch } => Some(
                (target_batch_size, fetch),
            ),
            _ => None,
        },
        StepView::Boundary(_) => None,
    }
}

/// Whether data crosses the network at a step: it was cut there, or the plan had a node for that
/// already.
pub open spec fn crosses_network(step: StepView) -> bool {
    match step {
        StepView::Boundary(_) => true,
        StepView::Node { node, .. } => boundary_of(node) is Some,
        StepView::CoalesceBatches { .. } => false,
    }
}

/// What data crosses the network from, so that it crosses in batches of the given size.
pub open spec fn gathered(input: StagedView, size: usize) -> StagedView {
    match gathers(input.step) {
        Some((target, fetch)) => if target == size {
            input
        } else {
            StagedView {
                step: StepView::CoalesceBatches { target_batch_size: size, fetch },
                children: input.children,
            }
        },
        None => StagedView {
            step: StepView::CoalesceBatches { target_batch_size: size, fetch: None },
            children: seq![input],
        },
    }
}

/// A plan in which data crosses the network in batches of the given size.
pub open spec fn coalesced(plan: StagedView, size: usize) -> Result<StagedView, DistributeError>
    decreases plan,
{
    match all_coalesced(plan.children, size) {
        Err(e) => Err(e),
        Ok(children) => if !crosses_network(plan.step) {
            Ok(StagedView { step: plan.step, children })
        } else if children.len() != 1 {
            Err(DistributeError::ExpectedOneChild(children.len() as usize))
        } else {
            Ok(StagedView { step: plan.step, children: seq![gathered(children[0], size)] })
        },
    }
}

/// Several plans in which data crosses the network in batches of the given size.
pub open spec fn all_coalesced(plans: Seq<StagedView>, size: usize) -> Result<
    Seq<StagedView>,
    DistributeError,
>
    decreases plans,
{
    if plans.len() == 0 {
        Ok(Seq::empty())
    } else {
        match all_coalesced(plans.drop_last(), size) {
            Err(e) => Err(e),
            Ok(before) => match coalesced(plans.last(), size) {
                Err(e) => Err(e),
                Ok(last) => Ok(before.push(last)),
            },
        }
    }
}

/// What a plan becomes so that data crosses the network in larger batches than it is handled in. Where
/// it is handled in batches that are large enough, nothing changes.
pub open spec fn batches_coalesced(plan: StagedView, cfg: BatchConfig) -> Result<
    StagedView,
    DistributeError,
> {
    if cfg.shuffle_batch_size <= cfg.batch_size {
        Ok(plan)
    } else {
        coalesced(plan, cfg.shuffle_batch_size)
    }
}

proof fn lemma_coalesced_prefix(plans: Seq<StagedView>, size: usize, n: int)
    requires
        0 <= n <= plans.len(),
        all_coalesced(plans.take(n), size) is Err,
    ensures
        all_coalesced(plans, size) == all_coalesced(plans.take(n), size),
    decreases plans.len() - n,
{
    if n == plans.len() {
        assert(plans.take(n) =~= plans);
    } else {
        assert(plans.take(n + 1).drop_last() =~= plans.take(n));
        lemma_coalesced_prefix(plans, size, n + 1);
    }
}

proof fn lemma_coalesced_len(plans: Seq<StagedView>, size: usize)
    ensures
        all_coalesced(plans, size) matches Ok(r) ==> r.len() == plans.len(),
    decreases plans.len(),
{
    if plans.len() > 0 {
        lemma_coalesced_len(plans.drop_last(), size);
    }
}

fn find_gathering(step: &Step) -> (found: Option<(usize, Option<usize>)>)
    ensures
        found == gathers(step@),
{
    match step {
        Step::CoalesceBatches { target_batch_size, fetch } => Some((*target_batch_size, *fetch)),
        Step::Node { node, .. } => match node.kind {
            NodeKind::CoalesceBatches { target_batch_size, fetch } => Some(
                (target_batch_size, fetch),
            ),
            _ => None,
        },
        Step::Boundary(_) => None,
    }
}

fn gather(input: StagedPlan, size: usize) -> (result: StagedPlan)
    ensures
        result@ == gathered(input@, size),
{
    proof {
        lemma_staged_children(input);
    }
    match find_gathering(&input.step) {
        Some((target, fetch)) => {
            if target == size {
                return input;
            }
            let result = StagedPlan {
                step: Step::CoalesceBatches { target_batch_size: size, fetch },
                children: input.children,
            };
            proof {
                lemma_staged_children(result);
            }
            result
        },
        None => {
            let ghost below = input@;
            let mut children: Vec<StagedPlan> = Vec::new();
            children.push(input);
            let result = StagedPlan {
                step: Step::CoalesceBatches { target_batch_size: size, fetch: None },
                children,
            };
            proof {
                lemma_staged_children(result);
                assert(result@.children =~= seq![below]);
            }
            result
        },
    }
}

fn coalesce_children(
    plans: Vec<StagedPlan>,
    size: usize,
    Ghost(views): Ghost<Seq<StagedView>>,
) -> (result: Result<Vec<StagedPlan>, DistributeError>)
    requires
        views == staged_views(plans@),
    ensures
        match result {
            Ok(r) => all_coalesced(views, size) == Ok::<_, DistributeError>(staged_views(r@)),
            Err(e) => all_coalesced(views, size) == Err::<Seq<StagedView>, _>(e),
        },
    decreases views, 1int,
{
    let mut result: Vec<StagedPlan> = Vec::new();
    proof {
        assert(views.take(0) =~= Seq::empty());
        assert(staged_views(result@) =~= Seq::empty());
    }
    for plan in it: plans
        invariant
            views == staged_views(it.seq()),
            all_coalesced(views.take(it.index() as int), size) == Ok::<_, DistributeError>(
                staged_views(result@),
            ),
    {
        let ghost k = it.index() as int;
        let ghost view = plan@;
        proof {
            assert(view == views[k]);
            assert(views.take(k + 1).drop_last() =~= views.take(k));
            assert(views.take(k + 1).last() == view);
        }
        let ghost before = result@;
        match coalesce_node(plan, size, Ghost(view)) {
            Err(e) => {
                proof {
                    lemma_coalesced_prefix(views, size, k + 1);
                }
                return Err(e);
            },
            Ok(last) => {
                result.push(last);
                proof {
                    assert(staged_views(result@) =~= staged_views(before).push(last@));
                }
            },
        }
    }
    proof {
        assert(views.take(views.len() as int) =~= views);
    }
    Ok(result)
}

fn coalesce_node(plan: StagedPlan, size: usize, Ghost(view): Ghost<StagedView>) -> (result: Result<
    StagedPlan,
    DistributeError,
>)
    requires
        view == plan@,
    ensures
        match result {
            Ok(r) => coalesced(view, size) == Ok::<_, DistributeError>(r@),
            Err(e) => coalesced(view, size) == Err::<StagedView, _>(e),
        },
    decreases view, 0int,
{
    proof {
        lemma_staged_children(plan);
        lemma_coalesced_len(view.children, size);
    }
    let ghost below = view.children;
    let step = plan.step;
    let mut children = match coalesce_children(plan.children, size, Ghost(below)) {
        Err(e) => {
            return Err(e);
        },
        Ok(children) => children,
    };
    let is_boundary = match &step {
        Step::Boundary(_) => true,
        Step::Node { node, .. } => node.is_network_boundary(),
        Step::CoalesceBatches { .. } => false,
    };
    if is_boundary {
        let n_children: usize = children.len();
        if n_children != 1 {
            return Err(DistributeError::ExpectedOneChild(n_children));
        }
        let ghost before = children@;
        let input = gather(children.swap_remove(0), size);
        proof {
            assert(staged_views(before)[0] == before[0]@);
        }
        let ghost gathered_view = input@;
        let mut children: Vec<StagedPlan> = Vec::new();
        children.push(input);
        let result = StagedPlan { step, children };
        proof {
            lemma_staged_children(result);
            assert(result@.children =~= seq![gathered_view]);
        }
        Ok(result)
    } else {
        let result = StagedPlan { step, children };
        proof {
            lemma_staged_children(result);
        }
        Ok(result)
    }
}

/// Gathers batches right below the places where data crosses the network, so that fewer and larger
/// ones are sent.
pub fn batch_coalescing_below_network_boundaries(plan: StagedPlan, cfg: &BatchConfig) -> (result:
    Result<StagedPlan, DistributeError>)
    ensures
        match result {
            Ok(r) => batches_coalesced(plan@, *cfg) == Ok::<_, DistributeError>(r@),
            Err(e) => batches_coalesced(plan@, *cfg) == Err::<StagedView, _>(e),
        },
{
    if cfg.shuffle_batch_size <= cfg.batch_size {
        return Ok(plan);
    }
    let ghost view = plan@;
    coalesce_node(plan, cfg.shuffle_batch_size, Ghost(view))
}

/// Whether data crosses the network from nodes that gather batches of the given size.
pub open spec fn crosses_in_batches(plan: StagedView, size: usize) -> bool
    decreases plan,
{
    &&& crosses_network(plan.step) ==> plan.children.len() == 1 && (gathers(
        plan.children[0].step,
    ) matches Some((target, _)) && target == size)
    &&& forall|i: int|
        0 <= i < plan.children.len() ==> crosses_in_batches(#[trigger] plan.children[i], size)
}

/// Where batches are gathered for the network at all, data crosses it from nodes that gather batches
/// of the configured size.
pub proof fn data_crosses_in_large_batches(plan: StagedView, cfg: BatchConfig)
    requires
        cfg.shuffle_batch_size > cfg.batch_size,
    ensures
        batches_coalesced(plan, cfg) matches Ok(r) ==> crosses_in_batches(
            r,
            cfg.shuffle_batch_size,
        ),
{
    lemma_crosses(plan, cfg.shuffle_batch_size);
}

proof fn lemma_crosses(plan: StagedView, size: usize)
    ensures
        coalesced(plan, size) matches Ok(r) ==> crosses_in_batches(r, size),
    decreases plan, 0int,
{
    lemma_all_cross(plan.children, size);
    match all_coalesced(plan.children, size) {
        Err(_) => {},
        Ok(children) => {
            if crosses_network(plan.step) && children.len() == 1 {
                assert(crosses_in_batches(children[0], size));
                lemma_gathered_crosses(children[0], size);
                let r = coalesced(plan, size)->Ok_0;
                assert(r.children[0] == gathered(children[0], size));
            }
        },
    }
}

proof fn lemma_gathered_crosses(input: StagedView, size: usize)
    requires
        crosses_in_batches(input, size),
    ensures
        crosses_in_batches(gathered(input, size), size),
        gathers(gathered(input, size).step) matches Some((target, _)) && target == size,
{
    match gathers(input.step) {
        Some((target, fetch)) => {
            assert(!crosses_network(input.step));
        },
        None => {
            assert(gathered(input, size).children =~= seq![input]);
        },
    }
}

proof fn lemma_all_cross(plans: Seq<StagedView>, size: usize)
    ensures
        all_coalesced(plans, size) matches Ok(r) ==> forall|i: int|
            0 <= i < r.len() ==> crosses_in_batches(#[trigger] r[i], size),
    decreases plans, 1int,
{
    if plans.len() > 0 {
        lemma_all_cross(plans.drop_last(), size);
        lemma_crosses(plans.last(), size);
    }
}

/// Gathering batches for the network a second time changes nothing.
pub proof fn gathering_batches_is_idempotent(plan: StagedView, cfg: BatchConfig)
    ensures
        batches_coalesced(plan, cfg) matches Ok(r) ==> batches_coalesced(r, cfg) == Ok::<
            _,
            DistributeError,
        >(r),
{
    if cfg.shuffle_batch_size > cfg.batch_size {
        lemma_crosses(plan, cfg.shuffle_batch_size);
        match coalesced(plan, cfg.shuffle_batch_size) {
            Err(_) => {},
            Ok(r) => {
                lemma_unchanged(r, cfg.shuffle_batch_size);
            },
        }
    }
}

proof fn lemma_unchanged(plan: StagedView, size: usize)
    requires
        crosses_in_batches(plan, size),
    ensures
        coalesced(plan, size) == Ok::<_, DistributeError>(plan),
    decreases plan, 0int,
{
    assert forall|i: int| 0 <= i < plan.children.len() implies crosses_in_batches(
        #[trigger] plan.children[i],
        size,
    ) by {}
    lemma_all_unchanged(plan.children, size);
    if crosses_network(plan.step) {
        assert(seq![gathered(plan.children[0], size)] =~= plan.children);
    }
}

proof fn lemma_all_unchanged(plans: Seq<StagedView>, size: usize)
    requires
        forall|i: int| 0 <= i < plans.len() ==> crosses_in_batches(#[trigger] plans[i], size),
    ensures
        all_coalesced(plans, size) == Ok::<_, DistributeError>(plans),
    decreases plans, 1int,
{
    if plans.len() == 0 {
        assert(plans =~= Seq::empty());
    } else {
        let before = plans.drop_last();
        assert forall|i: int| 0 <= i < before.len() implies crosses_in_batches(
            #[trigger] before[i],
            size,
        ) by {
            assert(before[i] == plans[i]);
        }
        lemma_all_unchanged(before, size);
        assert(plans.last() == plans[plans.len() - 1]);
        lemma_unchanged(plans.last(), size);
        assert(before.push(plans.last()) =~= plans);
    }
}

/// Whether a step gathers batches of the given size and stops after the given number of rows, if any.
pub open spec fn gathers_rows(step: StepView, size: usize, limit: Option<usize>) -> bool {
    match step {
        StepView::CoalesceBatches { target_batch_size, fetch } => target_batch_size == size && fetch
            == limit,
        StepView::Node { node, .. } => node.kind == (NodeKind::CoalesceBatches {
            target_batch_size: size,
            fetch: limit,
        }),
        StepView::Boundary(_) => false,
    }
}

/// Whether rows leave a worker at a step.
pub open spec fn leaves_worker(step: StepView) -> bool {
    step is Boundary || (step matches StepView::Node { node, .. } && (node.kind is NetworkShuffle
        || node.kind is NetworkCoalesce || node.kind is NetworkBroadcast))
}

/// Whether one plan is another with batches of the given size gathered for the network, and lets exactly
/// the same rows pass. A step that rows do not leave a worker from (`sent` says whether they do) is the
/// same in both. One that they do leave from gathers batches of that size: it stops after the same number
/// of rows as before if it gathered batches already, and otherwise it is a new one, without a limit, over
/// what was there.
pub open spec fn sends_same_rows(
    before: StagedView,
    after: StagedView,
    sent: bool,
    size: usize,
) -> bool
    decreases before, if sent { 1int } else { 0int },
{
    if !sent {
        &&& after.step == before.step
        &&& after.children.len() == before.children.len()
        &&& forall|i: int|
            0 <= i < before.children.len() ==> sends_same_rows(
                #[trigger] before.children[i],
                after.children[i],
                leaves_worker(before.step),
                size,
            )
    } else if exists|old_size: usize, limit: Option<usize>| #[trigger]
        gathers_rows(before.step, old_size, limit) {
        &&& forall|old_size: usize, limit: Option<usize>| #[trigger]
            gathers_rows(before.step, old_size, limit) ==> gathers_rows(after.step, size, limit)
        &&& sends_same_rows(
            before,
            StagedView { step: before.step, children: after.children },
            false,
            size,
        )
    } else {
        &&& gathers_rows(after.step, size, None)
        &&& after.children.len() == 1
        &&& sends_same_rows(before, after.children[0], false, size)
    }
}

/// Gathering batches for the network loses no row and adds none: every step stays in its place, and one
/// that stops after a number of rows still stops after that number. Rows leave a worker in batches of the
/// configured size, and nothing else changes.
pub proof fn gathering_batches_keeps_rows(plan: StagedView, cfg: BatchConfig)
    ensures
        batches_coalesced(plan, cfg) matches Ok(r) ==> if cfg.shuffle_batch_size > cfg.batch_size {
            sends_same_rows(plan, r, false, cfg.shuffle_batch_size)
        } else {
            r == plan
        },
{
    lemma_coalesced_keeps_rows(plan, cfg.shuffle_batch_size);
}

proof fn lemma_coalesced_keeps_rows(plan: StagedView, size: usize)
    ensures
        coalesced(plan, size) matches Ok(r) ==> sends_same_rows(plan, r, false, size),
    decreases plan, 0int,
{
    lemma_all_keep_rows(plan.children, size);
    if let Ok(children) = all_coalesced(plan.children, size) {
        assert(crosses_network(plan.step) == leaves_worker(plan.step));
        if crosses_network(plan.step) && children.len() == 1 {
            let below = plan.children[0];
            let input = gathered(children[0], size);
            let r = coalesced(plan, size)->Ok_0;
            assert(sends_same_rows(below, children[0], false, size));
            lemma_sends_gathered(below, children[0], size);
            assert(r.children =~= seq![input]);
        }
    }
}

proof fn lemma_sends_gathered(before: StagedView, after: StagedView, size: usize)
    requires
        sends_same_rows(before, after, false, size),
    ensures
        sends_same_rows(before, gathered(after, size), true, size),
{
    let r = gathered(after, size);
    match gathers(before.step) {
        Some((old_size, limit)) => {
            assert(gathers_rows(before.step, old_size, limit));
            assert(StagedView { step: before.step, children: r.children } == after);
        },
        None => {
            assert(forall|old_size: usize, limit: Option<usize>|
                !#[trigger] gathers_rows(before.step, old_size, limit));
            assert(r.children[0] == after);
        },
    }
}

proof fn lemma_all_keep_rows(plans: Seq<StagedView>, size: usize)
    ensures
        all_coalesced(plans, size) matches Ok(r) ==> r.len() == plans.len() && forall|i: int|
            0 <= i < plans.len() ==> sends_same_rows(#[trigger] plans[i], r[i], false, size),
    decreases plans, 1int,
{
    if plans.len() > 0 {
        let before = plans.drop_last();
        lemma_all_keep_rows(before, size);
        lemma_coalesced_keeps_rows(plans.last(), size);
        if let Ok(r) = all_coalesced(plans, size) {
            let kept = all_coalesced(before, size)->Ok_0;
            assert forall|i: int| 0 <= i < plans.len() implies sends_same_rows(
                #[trigger] plans[i],
                r[i],
                false,
                size,
            ) by {
                if i < before.len() {
                    assert(before[i] == plans[i]);
                    assert(r[i] == kept[i]);
                }
            }
        }
    }
}

/// Whether every step at which rows leave a worker has one plan below it.
pub open spec fn sends_from_one_plan(plan: StagedView) -> bool
    decreases plan,
{
    &&& leaves_worker(plan.step) ==> plan.children.len() == 1
    &&& forall|i: int|
        0 <= i < plan.children.len() ==> sends_from_one_plan(#[trigger] plan.children[i])
}

/// Batches can be gathered for the network wherever the rows that leave a worker come from one plan.
pub proof fn batches_can_be_gathered(plan: StagedView, cfg: BatchConfig)
    requires
        sends_from_one_plan(plan),
    ensures
        batches_coalesced(plan, cfg) is Ok,
{
    lemma_can_be_gathered(plan, cfg.shuffle_batch_size);
}

proof fn lemma_can_be_gathered(plan: StagedView, size: usize)
    requires
        sends_from_one_plan(plan),
    ensures
        coalesced(plan, size) is Ok,
    decreases plan, 0int,
{
    lemma_all_can_be_gathered(plan.children, size);
    lemma_coalesced_len(plan.children, size);
}

proof fn lemma_all_can_be_gathered(plans: Seq<StagedView>, size: usize)
    requires
        forall|i: int| 0 <= i < plans.len() ==> sends_from_one_plan(#[trigger] plans[i]),
    ensures
        all_coalesced(plans, size) is Ok,
    decreases plans, 1int,
{
    if plans.len() > 0 {
        let before = plans.drop_last();
        assert forall|i: int| 0 <= i < before.len() implies sends_from_one_plan(
            #[trigger] before[i],
        ) by {
            assert(before[i] == plans[i]);
        }
        lemma_all_can_be_gathered(before, size);
        assert(plans.last() == plans[plans.len() - 1]);
        lemma_can_be_gathered(plans.last(), size);
    }
}

} // verus!
