use crate::claims::some;
use crate::protocol::grpc::worker::{clone_bytes, TaskKey, TaskKeyView};
use crate::stage::{
    assigned_in_turn, in_turn, random_start, task_views, ExecutionTask, QueryId,
};
use crate::text::{decimal, push_usize};
use vstd::prelude::*;

verus! {

/// The stage below a network boundary of a plan that runs in stages.
#[derive(Debug)]
pub struct StageBelow {
    pub query_id: QueryId,
    pub num: usize,
    pub tasks: Vec<ExecutionTask>,
}

/// A plan that runs in stages.
#[derive(Debug)]
pub struct RunningPlan {
    /// Tells the node apart from the others of the plan.
    pub id: usize,
    /// For a network boundary, the stage below it.
    pub stage: Option<StageBelow>,
    /// The plans below the node. A network boundary has one: the plan of the stage below, or none once
    /// that plan is elsewhere.
    pub children: Vec<RunningPlan>,
}

/// The contents of a [StageBelow].
#[verifier::ext_equal]
pub struct StageBelowView {
    pub query_id: QueryId,
    pub num: usize,
    pub tasks: Seq<Option<Seq<char>>>,
}

impl View for StageBelow {
    type V = StageBelowView;

    open spec fn view(&self) -> StageBelowView {
        StageBelowView { query_id: self.query_id, num: self.num, tasks: task_views(self.tasks@) }
    }
}

/// Asks a worker to keep a plan until it is run.
#[derive(Debug)]
pub struct SetPlanRequest {
    pub plan_proto: Vec<u8>,
    pub task_count: u64,
    pub task_key: TaskKey,
}

/// A plan on its way to a worker.
#[derive(Debug)]
pub struct PlanToSend {
    pub url: String,
    pub request: SetPlanRequest,
}

/// The contents of a [PlanToSend].
#[verifier::ext_equal]
pub struct PlanToSendView {
    pub url: Seq<char>,
    pub plan_proto: Seq<u8>,
    pub task_count: u64,
    pub task_key: TaskKeyView,
}

impl View for PlanToSend {
    type V = PlanToSendView;

    open spec fn view(&self) -> PlanToSendView {
        PlanToSendView {
            url: self.url@,
            plan_proto: self.request.plan_proto@,
            task_count: self.request.task_count,
            task_key: self.request.task_key@,
        }
    }
}

/// The contents of some plans on their way.
pub open spec fn sent_views(plans: Seq<PlanToSend>) -> Seq<PlanToSendView> {
    Seq::new(plans.len(), |i: int| plans[i]@)
}

/// Why a plan cannot be run.
#[derive(Debug, PartialEq, Eq)]
pub enum PrepareError<E> {
    /// The query engine cannot write a plan down.
    Engine(E),
    PlanNotSet(usize),
    ManyPartitions(usize),
    ExpectedOneChild(usize),
    NotExecuted,
}

impl<E> PrepareError<E> {
    /// The text of the error, where it is one of this library's own.
    pub fn message(&self) -> (text: Option<String>)
        ensures
            match *self {
                PrepareError::PlanNotSet(num) => text matches Some(t) && t@
                    == "Plan is not set for stage "@ + decimal(num as nat),
                PrepareError::ManyPartitions(partition) => text matches Some(t) && t@
                    == "DistributedExec must only have 1 partition, but it was called with partition index "@
                    + decimal(partition as nat),
                PrepareError::NotExecuted => text matches Some(t) && t@
                    == "No prepared plan found. Was execute() called?"@,
                _ => text is None,
            },
    {
        let mut text = String::new();
        match self {
            PrepareError::PlanNotSet(num) => {
                text.push_str("Plan is not set for stage ");
                push_usize(&mut text, *num);
                proof {
                    assert(text@ =~= "Plan is not set for stage "@ + decimal(*num as nat));
                }
                Some(text)
            },
            PrepareError::ManyPartitions(partition) => {
                text.push_str(
                    "DistributedExec must only have 1 partition, but it was called with partition index ",
                );
                push_usize(&mut text, *partition);
                proof {
                    assert(text@
                        =~= "DistributedExec must only have 1 partition, but it was called with partition index "@
                        + decimal(*partition as nat));
                }
                Some(text)
            },
            PrepareError::NotExecuted => Some(
                "No prepared plan found. Was execute() called?".to_owned(),
            ),
            _ => None,
        }
    }
}

/// The requests that bring the plan of a stage to the workers of its tasks, in turn from the worker
/// at `start`.
pub open spec fn requests(
    stage: StageBelowView,
    plan_proto: Seq<u8>,
    urls: Seq<String>,
    start: int,
) -> Seq<PlanToSendView> {
    Seq::new(
        stage.tasks.len(),
        |i: int|
            PlanToSendView {
                url: urls[(start + i) % (urls.len() as int)]@,
                plan_proto,
                task_count: stage.tasks.len() as u64,
                task_key: TaskKeyView {
                    query_id: stage.query_id.bytes@,
                    stage_id: stage.num as u64,
                    task_number: i as u64,
                },
            },
    )
}

/// What a plan becomes when it is run, and the plans that are sent out for it.
pub type Prepared = (RunningPlan, Seq<PlanToSendView>);

/// Whether `result` is an outcome of making a plan ready to run. From the bottom up, every stage is
/// handed out to workers, in turn from any of them, and its plan is sent to them and no longer kept
/// here. Plans are written down by `write_plan`. The first stage without a plan, or with a plan that
/// cannot be written down, is the error.
pub open spec fn is_preparation<E, F>(
    write_plan: F,
    urls: Seq<String>,
    plan: RunningPlan,
    result: Result<Prepared, PrepareError<E>>,
) -> bool where F: Fn(&RunningPlan) -> Result<Vec<u8>, E>
    decreases plan, 0int,
{
    exists|children: Result<(Seq<RunningPlan>, Seq<PlanToSendView>), PrepareError<E>>| #[trigger]
        some(children) && are_preparations(write_plan, urls, plan.children@, children)
            && match children {
            Err(e) => result == Err::<Prepared, PrepareError<E>>(e),
            Ok((children, sent)) => match plan.stage {
                None => result matches Ok((prepared, all_sent)) && {
                    &&& prepared.id == plan.id
                    &&& prepared.stage is None
                    &&& prepared.children@ == children
                    &&& all_sent == sent
                },
                Some(stage) => if children.len() == 0 {
                    result == Err::<Prepared, PrepareError<E>>(PrepareError::PlanNotSet(stage.num))
                } else {
                    exists|written: Result<Vec<u8>, E>| #[trigger]
                        call_ensures(write_plan, (&children[0],), written) && match written {
                            Err(e) => result == Err::<Prepared, PrepareError<E>>(
                                PrepareError::Engine(e),
                            ),
                            Ok(bytes) => exists|start: int|
                                0 <= start < urls.len() && result == Ok::<
                                    Prepared,
                                    PrepareError<E>,
                                >(
                                    (
                                        (result->Ok_0).0,
                                        sent + #[trigger] requests(stage@, bytes@, urls, start),
                                    ),
                                ) && is_handed_out(
                                    plan.id,
                                    stage@,
                                    urls,
                                    start,
                                    (result->Ok_0).0,
                                ),
                        }
                },
            },
        }
}

/// Whether a node is the network boundary of a stage whose tasks were handed out to workers in turn
/// from the worker at `start`, and whose plan is no longer kept.
pub open spec fn is_handed_out(
    id: usize,
    stage: StageBelowView,
    urls: Seq<String>,
    start: int,
    prepared: RunningPlan,
) -> bool {
    &&& prepared.id == id
    &&& prepared.children@.len() == 0
    &&& prepared.stage matches Some(s) && s@ == (StageBelowView {
        tasks: assigned_in_turn(stage.tasks.len(), urls, start),
        ..stage
    })
}

/// Whether `result` is an outcome of making several plans ready to run, one after the other.
pub open spec fn are_preparations<E, F>(
    write_plan: F,
    urls: Seq<String>,
    plans: Seq<RunningPlan>,
    result: Result<(Seq<RunningPlan>, Seq<PlanToSendView>), PrepareError<E>>,
) -> bool where F: Fn(&RunningPlan) -> Result<Vec<u8>, E>
    decreases plans, 1int,
{
    if plans.len() == 0 {
        result == Ok::<(Seq<RunningPlan>, Seq<PlanToSendView>), PrepareError<E>>(
            (Seq::empty(), Seq::empty()),
        )
    } else {
        exists|before: Result<(Seq<RunningPlan>, Seq<PlanToSendView>), PrepareError<E>>| #[trigger]
            some(before) && are_preparations(write_plan, urls, plans.drop_last(), before)
                && match before {
                Err(e) => result == Err::<
                    (Seq<RunningPlan>, Seq<PlanToSendView>),
                    PrepareError<E>,
                >(e),
                Ok((front, sent)) => exists|last: Result<Prepared, PrepareError<E>>| #[trigger]
                    some(last) && is_preparation(write_plan, urls, plans.last(), last)
                        && match last {
                        Err(e) => result == Err::<
                            (Seq<RunningPlan>, Seq<PlanToSendView>),
                            PrepareError<E>,
                        >(e),
                        Ok((prepared, more)) => result == Ok::<
                            (Seq<RunningPlan>, Seq<PlanToSendView>),
                            PrepareError<E>,
                        >((front.push(prepared), sent + more)),
                    },
            }
    }
}

/// The first stage that is come to from the bottom up: whether its plan is there, if there is a stage.
pub open spec fn first_stage(plan: RunningPlan) -> Option<bool>
    decreases plan, 0int,
{
    match first_stage_of(plan.children@) {
        Some(has_plan) => Some(has_plan),
        None => match plan.stage {
            Some(_) => Some(plan.children@.len() > 0),
            None => None,
        },
    }
}

/// The first stage that is come to in several plans.
pub open spec fn first_stage_of(plans: Seq<RunningPlan>) -> Option<bool>
    decreases plans, 1int,
{
    if plans.len() == 0 {
        None
    } else {
        match first_stage_of(plans.drop_last()) {
            Some(has_plan) => Some(has_plan),
            None => first_stage(plans.last()),
        }
    }
}

proof fn lemma_first_stage_prefix(plans: Seq<RunningPlan>, n: int)
    requires
        0 <= n <= plans.len(),
        first_stage_of(plans.take(n)) is Some,
    ensures
        first_stage_of(plans) == first_stage_of(plans.take(n)),
    decreases plans.len() - n,
{
    if n == plans.len() {
        assert(plans.take(n) =~= plans);
    } else {
        assert(plans.take(n + 1).drop_last() =~= plans.take(n));
        lemma_first_stage_prefix(plans, n + 1);
    }
}

/// Where no worker is known, a plan can be made ready only if it has no stage to be sent.
pub open spec fn can_prepare(plan: RunningPlan, urls: Seq<String>) -> bool {
    urls.len() > 0 || first_stage(plan) != Some(true)
}

fn find_first_stage(plan: &RunningPlan) -> (found: Option<bool>)
    ensures
        found == first_stage(*plan),
    decreases plan,
{
    proof {
        assert(plan.children@.take(0) =~= Seq::empty());
    }
    for i in 0..plan.children.len()
        invariant
            first_stage_of(plan.children@.take(i as int)) is None,
    {
        proof {
            assert(plan.children@.take(i + 1).drop_last() =~= plan.children@.take(i as int));
        }
        let found = find_first_stage(&plan.children[i]);
        if found.is_some() {
            proof {
                lemma_first_stage_prefix(plan.children@, i + 1);
            }
            return found;
        }
    }
    proof {
        assert(plan.children@.take(plan.children@.len() as int) =~= plan.children@);
    }
    if plan.stage.is_some() {
        Some(plan.children.len() > 0)
    } else {
        None
    }
}

/// Tells whether a plan can be made ready with the workers that are known.
pub fn is_preparable(plan: &RunningPlan, urls: &Vec<String>) -> (yes: bool)
    ensures
        yes == can_prepare(*plan, urls@),
{
    if urls.len() > 0 {
        return true;
    }
    match find_first_stage(plan) {
        Some(has_plan) => !has_plan,
        None => true,
    }
}

/// Where no worker is known and the first stage has no plan, that is an error.
proof fn lemma_no_plan_fails<E, F>(
    write_plan: F,
    urls: Seq<String>,
    plan: RunningPlan,
    result: Result<Prepared, PrepareError<E>>,
) where F: Fn(&RunningPlan) -> Result<Vec<u8>, E>
    requires
        is_preparation(write_plan, urls, plan, result),
        first_stage(plan) == Some(false),
    ensures
        result is Err,
    decreases plan, 0int,
{
    let children = choose|
        children: Result<(Seq<RunningPlan>, Seq<PlanToSendView>), PrepareError<E>>,
    | #[trigger]
        some(children) && are_preparations(write_plan, urls, plan.children@, children)
            && match children {
            Err(e) => result == Err::<Prepared, PrepareError<E>>(e),
            Ok((children, sent)) => match plan.stage {
                None => result matches Ok((prepared, all_sent)) && {
                    &&& prepared.id == plan.id
                    &&& prepared.stage is None
                    &&& prepared.children@ == children
                    &&& all_sent == sent
                },
                Some(stage) => if children.len() == 0 {
                    result == Err::<Prepared, PrepareError<E>>(PrepareError::PlanNotSet(stage.num))
                } else {
                    true
                },
            },
        };
    if first_stage_of(plan.children@) == Some(false) {
        lemma_no_plan_fails_in(write_plan, urls, plan.children@, children);
    } else {
        assert(plan.children@.len() == 0);
    }
}

proof fn lemma_no_plan_fails_in<E, F>(
    write_plan: F,
    urls: Seq<String>,
    plans: Seq<RunningPlan>,
    result: Result<(Seq<RunningPlan>, Seq<PlanToSendView>), PrepareError<E>>,
) where F: Fn(&RunningPlan) -> Result<Vec<u8>, E>
    requires
        are_preparations(write_plan, urls, plans, result),
        first_stage_of(plans) == Some(false),
    ensures
        result is Err,
    decreases plans, 1int,
{
    let before = choose|
        before: Result<(Seq<RunningPlan>, Seq<PlanToSendView>), PrepareError<E>>,
    | #[trigger]
        some(before) && are_preparations(write_plan, urls, plans.drop_last(), before)
            && match before {
            Err(e) => result == Err::<(Seq<RunningPlan>, Seq<PlanToSendView>), PrepareError<E>>(e),
            Ok((front, sent)) => exists|last: Result<Prepared, PrepareError<E>>| #[trigger]
                some(last) && is_preparation(write_plan, urls, plans.last(), last)
                    && match last {
                    Err(e) => result == Err::<
                        (Seq<RunningPlan>, Seq<PlanToSendView>),
                        PrepareError<E>,
                    >(e),
                    Ok((prepared, more)) => true,
                },
        };
    if first_stage_of(plans.drop_last()) == Some(false) {
        lemma_no_plan_fails_in(write_plan, urls, plans.drop_last(), before);
    } else {
        match before {
            Err(_) => {},
            Ok((front, sent)) => {
                let last = choose|last: Result<Prepared, PrepareError<E>>| #[trigger]
                    some(last) && is_preparation(write_plan, urls, plans.last(), last)
                        && match last {
                        Err(e) => result == Err::<
                            (Seq<RunningPlan>, Seq<PlanToSendView>),
                            PrepareError<E>,
                        >(e),
                        Ok((prepared, more)) => true,
                    };
                lemma_no_plan_fails(write_plan, urls, plans.last(), last);
            },
        }
    }
}

/// Hands the tasks of a stage out to the workers in turn from the worker at `start`, and makes the
/// requests that bring them the plan.
pub fn hand_out(
    stage: &StageBelow,
    plan_proto: &Vec<u8>,
    urls: &Vec<String>,
    start: usize,
    sent: &mut Vec<PlanToSend>,
) -> (tasks: Vec<ExecutionTask>)
    requires
        start < urls@.len(),
    ensures
        task_views(tasks@) == assigned_in_turn(stage.tasks@.len(), urls@, start as int),
        sent_views(final(sent)@) == sent_views(old(sent)@) + requests(
            stage@,
            plan_proto@,
            urls@,
            start as int,
        ),
{
    let ghost all = requests(stage@, plan_proto@, urls@, start as int);
    let ghost before = sent_views(sent@);
    let mut tasks: Vec<ExecutionTask> = Vec::new();
    proof {
        assert(before + all.take(0) =~= before);
    }
    for i in 0..stage.tasks.len()
        invariant
            start < urls@.len(),
            all == requests(stage@, plan_proto@, urls@, start as int),
            tasks@.len() == i,
            forall|j: int|
                0 <= j < i ==> (#[trigger] tasks@[j])@ == Some(
                    urls@[(start + j) % (urls@.len() as int)]@,
                ),
            sent_views(sent@) == before + all.take(i as int),
    {
        let place: usize = in_turn(start, i, urls.len());
        tasks.push(ExecutionTask { url: Some(urls[place].clone()) });
        let ghost so_far = sent@;
        let request = SetPlanRequest {
            plan_proto: clone_bytes(plan_proto),
            task_count: stage.tasks.len() as u64,
            task_key: TaskKey {
                query_id: stage.query_id.to_vec(),
                stage_id: stage.num as u64,
                task_number: i as u64,
            },
        };
        let to_send = PlanToSend { url: urls[place].clone(), request };
        proof {
            assert(to_send@ =~= all[i as int]);
        }
        sent.push(to_send);
        proof {
            assert(sent_views(sent@) =~= sent_views(so_far).push(all[i as int]));
            assert(before + all.take(i + 1) =~= (before + all.take(i as int)).push(all[i as int]));
        }
    }
    proof {
        assert(task_views(tasks@) =~= assigned_in_turn(
            stage.tasks@.len(),
            urls@,
            start as int,
        ));
        assert(all.take(all.len() as int) =~= all);
    }
    tasks
}

/// What is returned for a plan, as what it stands for.
pub open spec fn outcome<E>(
    result: Result<(RunningPlan, Vec<PlanToSend>), PrepareError<E>>,
) -> Result<Prepared, PrepareError<E>> {
    match result {
        Ok((plan, sent)) => Ok((plan, sent_views(sent@))),
        Err(e) => Err(e),
    }
}

/// What is returned for several plans, as what it stands for.
pub open spec fn outcomes<E>(
    result: Result<(Vec<RunningPlan>, Vec<PlanToSend>), PrepareError<E>>,
) -> Result<(Seq<RunningPlan>, Seq<PlanToSendView>), PrepareError<E>> {
    match result {
        Ok((plans, sent)) => Ok((plans@, sent_views(sent@))),
        Err(e) => Err(e),
    }
}

proof fn lemma_preparations_prefix<E, F>(
    write_plan: F,
    urls: Seq<String>,
    plans: Seq<RunningPlan>,
    n: int,
    e: PrepareError<E>,
) where F: Fn(&RunningPlan) -> Result<Vec<u8>, E>
    requires
        0 <= n <= plans.len(),
        are_preparations(
            write_plan,
            urls,
            plans.take(n),
            Err::<(Seq<RunningPlan>, Seq<PlanToSendView>), PrepareError<E>>(e),
        ),
    ensures
        are_preparations(
            write_plan,
            urls,
            plans,
            Err::<(Seq<RunningPlan>, Seq<PlanToSendView>), PrepareError<E>>(e),
        ),
    decreases plans.len() - n,
{
    if n == plans.len() {
        assert(plans.take(n) =~= plans);
    } else {
        assert(plans.take(n + 1).drop_last() =~= plans.take(n));
        assert(some(Err::<(Seq<RunningPlan>, Seq<PlanToSendView>), PrepareError<E>>(e)));
        assert(are_preparations(
            write_plan,
            urls,
            plans.take(n + 1),
            Err::<(Seq<RunningPlan>, Seq<PlanToSendView>), PrepareError<E>>(e),
        ));
        lemma_preparations_prefix(write_plan, urls, plans, n + 1, e);
    }
}

fn append(sent: &mut Vec<PlanToSend>, more: Vec<PlanToSend>)
    ensures
        sent_views(final(sent)@) == sent_views(old(sent)@) + sent_views(more@),
{
    let ghost before = sent_views(sent@);
    let ghost added = sent_views(more@);
    proof {
        assert(before + added.take(0) =~= before);
    }
    for to_send in it: more
        invariant
            sent_views(it.seq()) == added,
            sent_views(sent@) == before + added.take(it.index() as int),
    {
        let ghost so_far = sent@;
        let ghost k = it.index() as int;
        proof {
            assert(to_send@ == added[k]);
        }
        sent.push(to_send);
        proof {
            assert(sent_views(sent@) =~= sent_views(so_far).push(added[k]));
            assert(before + added.take(k + 1) =~= (before + added.take(k)).push(added[k]));
        }
    }
    proof {
        assert(added.take(added.len() as int) =~= added);
    }
}

fn prepare_children<E, F>(
    plans: Vec<RunningPlan>,
    urls: &Vec<String>,
    write_plan: &F,
    Ghost(all): Ghost<Seq<RunningPlan>>,
) -> (result: Result<(Vec<RunningPlan>, Vec<PlanToSend>), PrepareError<E>>) where
    F: Fn(&RunningPlan) -> Result<Vec<u8>, E>,

    requires
        all == plans@,
        urls@.len() > 0 || first_stage_of(all) != Some(true),
        forall|p: &RunningPlan| call_requires(*write_plan, (p,)),
    ensures
        are_preparations(*write_plan, urls@, all, outcomes(result)),
    decreases all, 1int,
{
    let mut prepared: Vec<RunningPlan> = Vec::new();
    let mut sent: Vec<PlanToSend> = Vec::new();
    proof {
        assert(all.take(0) =~= Seq::empty());
        assert(sent_views(sent@) =~= Seq::empty());
    }
    for plan in it: plans
        invariant
            it.seq() == all,
            urls@.len() > 0 || (first_stage_of(all) != Some(true) && first_stage_of(
                all.take(it.index() as int),
            ) is None),
            forall|p: &RunningPlan| call_requires(*write_plan, (p,)),
            are_preparations(
                *write_plan,
                urls@,
                all.take(it.index() as int),
                Ok::<(Seq<RunningPlan>, Seq<PlanToSendView>), PrepareError<E>>(
                    (prepared@, sent_views(sent@)),
                ),
            ),
    {
        let ghost k = it.index() as int;
        let ghost node = plan;
        proof {
            assert(node == all[k]);
            assert(all.take(k + 1).drop_last() =~= all.take(k));
            assert(all.take(k + 1).last() == node);
            if urls@.len() == 0 && first_stage(node) is Some {
                lemma_first_stage_prefix(all, k + 1);
            }
        }
        let ghost so_far = Ok::<(Seq<RunningPlan>, Seq<PlanToSendView>), PrepareError<E>>(
            (prepared@, sent_views(sent@)),
        );
        let result = prepare_node(plan, urls, write_plan, Ghost(node));
        let ghost last = outcome(result);
        proof {
            assert(some(so_far));
            assert(some(last));
        }
        match result {
            Err(e) => {
                proof {
                    assert(last == Err::<Prepared, PrepareError<E>>(e));
                    assert(are_preparations(
                        *write_plan,
                        urls@,
                        all.take(k + 1),
                        Err::<(Seq<RunningPlan>, Seq<PlanToSendView>), PrepareError<E>>(e),
                    ));
                    lemma_preparations_prefix(*write_plan, urls@, all, k + 1, e);
                }
                return Err(e);
            },
            Ok((node_prepared, more)) => {
                proof {
                    if urls@.len() == 0 && first_stage(node) == Some(false) {
                        lemma_no_plan_fails(*write_plan, urls@, node, last);
                    }
                }
                let ghost before = sent_views(sent@);
                let ghost front = prepared@;
                prepared.push(node_prepared);
                append(&mut sent, more);
                proof {
                    assert(are_preparations(
                        *write_plan,
                        urls@,
                        all.take(k + 1),
                        Ok::<(Seq<RunningPlan>, Seq<PlanToSendView>), PrepareError<E>>(
                            (prepared@, sent_views(sent@)),
                        ),
                    ));
                }
            },
        }
    }
    proof {
        assert(all.take(all.len() as int) =~= all);
    }
    Ok((prepared, sent))
}

fn prepare_node<E, F>(
    plan: RunningPlan,
    urls: &Vec<String>,
    write_plan: &F,
    Ghost(node): Ghost<RunningPlan>,
) -> (result: Result<(RunningPlan, Vec<PlanToSend>), PrepareError<E>>) where
    F: Fn(&RunningPlan) -> Result<Vec<u8>, E>,

    requires
        node == plan,
        can_prepare(node, urls@),
        forall|p: &RunningPlan| call_requires(*write_plan, (p,)),
    ensures
        is_preparation(*write_plan, urls@, node, outcome(result)),
    decreases node, 0int,
{
    let id: usize = plan.id;
    let stage = plan.stage;
    let ghost below = node.children@;
    let children_result = prepare_children(plan.children, urls, write_plan, Ghost(below));
    let ghost children_outcome = outcomes(children_result);
    proof {
        assert(some(children_outcome));
    }
    let (children, mut sent) = match children_result {
        Err(e) => {
            return Err(e);
        },
        Ok(prepared) => prepared,
    };
    let stage = match stage {
        None => {
            return Ok((RunningPlan { id, stage: None, children }, sent));
        },
        Some(stage) => stage,
    };
    if children.len() == 0 {
        return Err(PrepareError::PlanNotSet(stage.num));
    }
    let bytes = match write_plan(&children[0]) {
        Err(e) => {
            return Err(PrepareError::Engine(e));
        },
        Ok(bytes) => bytes,
    };
    proof {
        assert(urls@.len() > 0) by {
            lemma_preparations_len(*write_plan, urls@, below, children_outcome);
            if urls@.len() == 0 && first_stage_of(below) == Some(false) {
                lemma_no_plan_fails_in(*write_plan, urls@, below, children_outcome);
            }
        }
    }
    let start: usize = random_start(urls.len());
    let ghost before = sent_views(sent@);
    let tasks = hand_out(&stage, &bytes, urls, start, &mut sent);
    let prepared = RunningPlan {
        id,
        stage: Some(StageBelow { query_id: stage.query_id, num: stage.num, tasks }),
        children: Vec::new(),
    };
    proof {
        assert(stage@.tasks.len() == stage.tasks@.len());
        assert(call_ensures(*write_plan, (&children@[0],), Ok::<Vec<u8>, E>(bytes)));
        assert(sent_views(sent@) == before + requests(stage@, bytes@, urls@, start as int));
        assert(is_handed_out(id, stage@, urls@, start as int, prepared));
    }
    Ok((prepared, sent))
}

proof fn lemma_preparations_len<E, F>(
    write_plan: F,
    urls: Seq<String>,
    plans: Seq<RunningPlan>,
    result: Result<(Seq<RunningPlan>, Seq<PlanToSendView>), PrepareError<E>>,
) where F: Fn(&RunningPlan) -> Result<Vec<u8>, E>
    requires
        are_preparations(write_plan, urls, plans, result),
    ensures
        result matches Ok((prepared, _)) ==> prepared.len() == plans.len(),
    decreases plans.len(),
{
    if plans.len() > 0 {
        let before = choose|
            before: Result<(Seq<RunningPlan>, Seq<PlanToSendView>), PrepareError<E>>,
        | #[trigger]
            some(before) && are_preparations(write_plan, urls, plans.drop_last(), before)
                && match before {
                Err(e) => result == Err::<
                    (Seq<RunningPlan>, Seq<PlanToSendView>),
                    PrepareError<E>,
                >(e),
                Ok((front, sent)) => exists|last: Result<Prepared, PrepareError<E>>| #[trigger]
                    some(last) && is_preparation(write_plan, urls, plans.last(), last)
                        && match last {
                        Err(e) => result == Err::<
                            (Seq<RunningPlan>, Seq<PlanToSendView>),
                            PrepareError<E>,
                        >(e),
                        Ok((prepared, more)) => result == Ok::<
                            (Seq<RunningPlan>, Seq<PlanToSendView>),
                            PrepareError<E>,
                        >((front.push(prepared), sent + more)),
                    },
            };
        lemma_preparations_len(write_plan, urls, plans.drop_last(), before);
    }
}

/// Makes a plan ready to run: every stage is handed out to workers, in turn from a random one, and its
/// plan is sent to them and no longer kept here.
pub fn prepare_plan<E, F>(plan: RunningPlan, urls: &Vec<String>, write_plan: &F) -> (result: Result<
    (RunningPlan, Vec<PlanToSend>),
    PrepareError<E>,
>) where F: Fn(&RunningPlan) -> Result<Vec<u8>, E>
    requires
        can_prepare(plan, urls@),
        forall|p: &RunningPlan| call_requires(*write_plan, (p,)),
    ensures
        is_preparation(*write_plan, urls@, plan, outcome(result)),
{
    let ghost node = plan;
    prepare_node(plan, urls, write_plan, Ghost(node))
}

/// Whether no stage of a plan is kept here any more, and all the tasks of the stages have workers.
pub open spec fn is_sent_out(plan: RunningPlan) -> bool
    decreases plan,
{
    &&& plan.stage matches Some(stage) ==> plan.children@.len() == 0 && forall|t: int|
        0 <= t < stage.tasks@.len() ==> (#[trigger] stage.tasks@[t]).url is Some
    &&& forall|i: int| 0 <= i < plan.children@.len() ==> is_sent_out(#[trigger] plan.children@[i])
}

/// Once a plan is ready to run, no stage of it is kept here any more, and all the tasks of its stages
/// have workers.
pub proof fn prepared_plans_are_sent_out<E, F>(
    write_plan: F,
    urls: Seq<String>,
    plan: RunningPlan,
    result: Result<Prepared, PrepareError<E>>,
) where F: Fn(&RunningPlan) -> Result<Vec<u8>, E>
    requires
        is_preparation(write_plan, urls, plan, result),
    ensures
        result matches Ok((prepared, _)) ==> is_sent_out(prepared),
    decreases plan, 0int,
{
    match result {
        Err(_) => {},
        Ok((prepared, all_sent)) => {
            let children = choose|
                children: Result<(Seq<RunningPlan>, Seq<PlanToSendView>), PrepareError<E>>,
            | #[trigger]
                some(children) && are_preparations(write_plan, urls, plan.children@, children)
                    && match children {
                    Err(e) => false,
                    Ok((children, sent)) => match plan.stage {
                        None => prepared.stage is None && prepared.children@ == children,
                        Some(stage) => exists|start: int| #[trigger]
                            is_handed_out(plan.id, stage@, urls, start, prepared),
                    },
                };
            lemma_prepared_plans_are_sent_out(write_plan, urls, plan.children@, children);
            match plan.stage {
                None => {},
                Some(stage) => {
                    let start = choose|start: int| #[trigger]
                        is_handed_out(plan.id, stage@, urls, start, prepared);
                    let handed_out = prepared.stage->0;
                    assert forall|t: int| 0 <= t < handed_out.tasks@.len() implies (
                    #[trigger] handed_out.tasks@[t]).url is Some by {
                        let tasks = assigned_in_turn(stage@.tasks.len(), urls, start);
                        assert(handed_out@.tasks == tasks);
                        assert(tasks.len() == handed_out.tasks@.len());
                        assert(tasks[t] is Some);
                        assert(task_views(handed_out.tasks@)[t] == handed_out.tasks@[t]@);
                    }
                },
            }
        },
    }
}

proof fn lemma_prepared_plans_are_sent_out<E, F>(
    write_plan: F,
    urls: Seq<String>,
    plans: Seq<RunningPlan>,
    result: Result<(Seq<RunningPlan>, Seq<PlanToSendView>), PrepareError<E>>,
) where F: Fn(&RunningPlan) -> Result<Vec<u8>, E>
    requires
        are_preparations(write_plan, urls, plans, result),
    ensures
        result matches Ok((prepared, _)) ==> forall|i: int|
            0 <= i < prepared.len() ==> is_sent_out(#[trigger] prepared[i]),
    decreases plans, 1int,
{
    if plans.len() > 0 && result is Ok {
        let before = choose|
            before: Result<(Seq<RunningPlan>, Seq<PlanToSendView>), PrepareError<E>>,
        | #[trigger]
            some(before) && are_preparations(write_plan, urls, plans.drop_last(), before)
                && match before {
                Err(e) => false,
                Ok((front, sent)) => exists|last: Result<Prepared, PrepareError<E>>| #[trigger]
                    some(last) && is_preparation(write_plan, urls, plans.last(), last)
                        && match last {
                        Err(e) => false,
                        Ok((prepared, more)) => (result->Ok_0).0 == front.push(prepared),
                    },
            };
        let front = (before->Ok_0).0;
        let last = choose|last: Result<Prepared, PrepareError<E>>| #[trigger]
            some(last) && is_preparation(write_plan, urls, plans.last(), last) && match last {
                Err(e) => false,
                Ok((prepared, more)) => (result->Ok_0).0 == front.push(prepared),
            };
        lemma_prepared_plans_are_sent_out(write_plan, urls, plans.drop_last(), before);
        prepared_plans_are_sent_out(write_plan, urls, plans.last(), last);
    }
}

/// Runs a plan in stages. It remembers the plan that it last made ready to run.
#[derive(Debug)]
pub struct DistributedExec {
    pub prepared: Option<RunningPlan>,
}

impl DistributedExec {
    pub fn new() -> (exec: Self)
        ensures
            exec.prepared is None,
    {
        DistributedExec { prepared: None }
    }

    /// The plan that was last made ready to run.
    pub fn prepared_plan<E>(&self) -> (result: Result<&RunningPlan, PrepareError<E>>)
        ensures
            match self.prepared {
                Some(plan) => result matches Ok(p) && *p == plan,
                None => result matches Err(PrepareError::NotExecuted),
            },
    {
        match &self.prepared {
            Some(plan) => Ok(plan),
            None => Err(PrepareError::NotExecuted),
        }
    }

    /// Makes a plan ready to run, and returns the plans that are to be sent out. It is run once, as a
    /// single partition: each time the workers would be different ones.
    pub fn execute<E, F>(
        &mut self,
        partition: usize,
        plan: RunningPlan,
        urls: &Vec<String>,
        write_plan: &F,
    ) -> (result: Result<Vec<PlanToSend>, PrepareError<E>>) where
        F: Fn(&RunningPlan) -> Result<Vec<u8>, E>,

        requires
            partition == 0 ==> can_prepare(plan, urls@),
            forall|p: &RunningPlan| call_requires(*write_plan, (p,)),
        ensures
            if partition > 0 {
                &&& result matches Err(PrepareError::ManyPartitions(p)) && p == partition
                &&& *final(self) == *old(self)
            } else {
                match result {
                    Ok(sent) => final(self).prepared matches Some(prepared) && is_preparation(
                        *write_plan,
                        urls@,
                        plan,
                        Ok::<Prepared, PrepareError<E>>((prepared, sent_views(sent@))),
                    ),
                    Err(e) => *final(self) == *old(self) && is_preparation(
                        *write_plan,
                        urls@,
                        plan,
                        Err::<Prepared, PrepareError<E>>(e),
                    ),
                }
            },
    {
        if partition > 0 {
            return Err(PrepareError::ManyPartitions(partition));
        }
        let result = prepare_plan(plan, urls, write_plan);
        let ghost expected = outcome(result);
        match result {
            Err(e) => {
                proof {
                    assert(expected == Err::<Prepared, PrepareError<E>>(e));
                }
                Err(e)
            },
            Ok((prepared, sent)) => {
                self.prepared = Some(prepared);
                Ok(sent)
            },
        }
    }

    /// Shows the node.
    pub fn fmt_as(&self) -> (text: String)
        ensures
            text@ == "DistributedExec"@,
    {
        "DistributedExec".to_owned()
    }
}

/// How long the calls of some kind took, in microseconds.
#[derive(Debug, Clone, Copy, PartialEq, Eq, Structural)]
pub struct LatencyMetric {
    pub max_latency_micros: u64,
    pub sum_latency_micros: u64,
    pub count_latency_micros: u64,
}

/// The longest of some calls.
pub open spec fn longest(latencies: Seq<u64>) -> u64
    decreases latencies.len(),
{
    if latencies.len() == 0 {
        0
    } else {
        let before = longest(latencies.drop_last());
        if latencies.last() > before { latencies.last() } else { before }
    }
}

/// How long some calls took together.
pub open spec fn together(latencies: Seq<u64>) -> nat
    decreases latencies.len(),
{
    if latencies.len() == 0 {
        0
    } else {
        together(latencies.drop_last()) + latencies.last() as nat
    }
}

impl LatencyMetric {
    /// Whether the metric has recorded the given calls. Sums and counts that are too large wrap around.
    pub open spec fn has_recorded(&self, latencies: Seq<u64>) -> bool {
        &&& self.max_latency_micros == longest(latencies)
        &&& self.sum_latency_micros == together(latencies) % 0x1_0000_0000_0000_0000
        &&& self.count_latency_micros == latencies.len() % 0x1_0000_0000_0000_0000
    }

    pub fn new() -> (metric: Self)
        ensures
            metric.has_recorded(Seq::empty()),
    {
        LatencyMetric { max_latency_micros: 0, sum_latency_micros: 0, count_latency_micros: 0 }
    }

    /// Takes in one more call.
    pub fn record(&mut self, micros: u64)
        ensures
            final(self).max_latency_micros == if micros > old(self).max_latency_micros {
                micros
            } else {
                old(self).max_latency_micros
            },
            final(self).sum_latency_micros == (old(self).sum_latency_micros + micros)
                % 0x1_0000_0000_0000_0000,
            final(self).count_latency_micros == (old(self).count_latency_micros + 1)
                % 0x1_0000_0000_0000_0000,
            forall|latencies: Seq<u64>|
                #![trigger old(self).has_recorded(latencies)]
                old(self).has_recorded(latencies) ==> final(self).has_recorded(
                    latencies.push(micros),
                ),
    {
        if micros > self.max_latency_micros {
            self.max_latency_micros = micros;
        }
        self.sum_latency_micros = self.sum_latency_micros.wrapping_add(micros);
        self.count_latency_micros = self.count_latency_micros.wrapping_add(1);
        proof {
            assert forall|latencies: Seq<u64>|
                #![trigger old(self).has_recorded(latencies)]
                old(self).has_recorded(latencies) implies self.has_recorded(
                latencies.push(micros),
            ) by {
                assert(latencies.push(micros).drop_last() =~= latencies);
            }
        }
    }

    /// The longest call.
    pub fn max(&self) -> (micros: u64)
        ensures
            micros == self.max_latency_micros,
    {
        self.max_latency_micros
    }

    /// How long a call took on average, rounded down.
    pub fn avg(&self) -> (micros: u64)
        ensures
            micros == self.sum_latency_micros as int / (if self.count_latency_micros == 0 {
                1int
            } else {
                self.count_latency_micros as int
            }),
    {
        let count: u64 = if self.count_latency_micros == 0 {
            1
        } else {
            self.count_latency_micros
        };
        self.sum_latency_micros / count
    }

    /// The name under which the longest call is shown.
    pub fn max_name(name: &str) -> (text: String)
        ensures
            text@ == name@ + "_max"@,
    {
        let mut text = String::new();
        text.push_str(name);
        text.push_str("_max");
        proof {
            assert(text@ =~= name@ + "_max"@);
        }
        text
    }

    /// The name under which the average is shown.
    pub fn avg_name(name: &str) -> (text: String)
        ensures
            text@ == name@ + "_avg"@,
    {
        let mut text = String::new();
        text.push_str(name);
        text.push_str("_avg");
        proof {
            assert(text@ =~= name@ + "_avg"@);
        }
        text
    }
}

proof fn lemma_together_bound(latencies: Seq<u64>)
    ensures
        together(latencies) <= latencies.len() * longest(latencies),
    decreases latencies.len(),
{
    if latencies.len() > 0 {
        let before = latencies.drop_last();
        lemma_together_bound(before);
        let (n, small, large, last) = (
            before.len() as int,
            longest(before) as int,
            longest(latencies) as int,
            latencies.last() as int,
        );
        assert(n * small + last <= (n + 1) * large) by (nonlinear_arith)
            requires
                n >= 0,
                small <= large,
                last <= large,
        ;
        assert(latencies.len() * longest(latencies) == (n + 1) * large);
    }
}

/// The average of some calls is not longer than the longest of them, while they can be added up.
pub proof fn average_is_at_most_the_longest(metric: LatencyMetric, latencies: Seq<u64>)
    requires
        metric.has_recorded(latencies),
        together(latencies) <= u64::MAX,
        latencies.len() <= u64::MAX,
    ensures
        metric.sum_latency_micros as int / (if metric.count_latency_micros == 0 {
            1int
        } else {
            metric.count_latency_micros as int
        }) <= metric.max_latency_micros,
{
    lemma_together_bound(latencies);
    vstd::arithmetic::div_mod::lemma_small_mod(together(latencies), 0x1_0000_0000_0000_0000);
    vstd::arithmetic::div_mod::lemma_small_mod(latencies.len(), 0x1_0000_0000_0000_0000);
    if latencies.len() > 0 {
        let (sum, n, max) = (
            together(latencies) as int,
            latencies.len() as int,
            longest(latencies) as int,
        );
        assert(sum / n <= max) by (nonlinear_arith)
            requires
                n > 0,
                sum <= n * max,
        ;
    }
}

/// No call took longer than the longest, which one of them was, and all of them together took the sum of
/// any part of them and of the rest.
pub proof fn latencies_are_summed_up(latencies: Seq<u64>, i: int)
    requires
        0 <= i < latencies.len(),
    ensures
        latencies[i] <= longest(latencies),
        latencies.contains(longest(latencies)),
        together(latencies) == together(latencies.take(i)) + latencies[i] + together(
            latencies.skip(i + 1),
        ),
    decreases latencies.len(),
{
    let front = latencies.drop_last();
    let last = latencies.last();
    if front.len() > 0 {
        latencies_are_summed_up(front, if i < front.len() { i } else { 0 });
        if longest(front) >= last {
            let k = choose|k: int| 0 <= k < front.len() && front[k] == longest(front);
            assert(latencies[k] == longest(latencies));
        }
    }
    assert(latencies[latencies.len() - 1] == last);
    assert(front.len() == 0 ==> longest(front) == 0);
    let rest = latencies.skip(i + 1);
    if i < front.len() {
        assert(front.take(i) =~= latencies.take(i));
        assert(rest.drop_last() =~= front.skip(i + 1));
    } else {
        assert(front =~= latencies.take(i));
        assert(rest =~= Seq::empty());
    }
}

} // verus!
