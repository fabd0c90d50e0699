use crate::claims::some;
use crate::execution_plans::distributed::{
    are_preparations, is_handed_out, is_preparation, requests, PlanToSendView, PrepareError,
    Prepared, RunningPlan, StageBelowView,
};
use crate::execution_plans::stage::{is_assignment, InputStage, StageExec};
use crate::protocol::grpc::worker::TaskKeyView;
use crate::stage::{assigned_in_turn, task_views, turns_are_fair};
use vstd::prelude::*;

verus! {

/// Whom a plan is sent to: a task, and the number of tasks of its stage.
#[verifier::ext_equal]
pub struct Address {
    pub task_key: TaskKeyView,
    pub task_count: u64,
}

/// The tasks of a stage, from the first to the last.
pub open spec fn tasks_of_stage(stage: StageBelowView) -> Seq<Address> {
    Seq::new(
        stage.tasks.len(),
        |i: int|
            Address {
                task_key: TaskKeyView {
                    query_id: stage.query_id.bytes@,
                    stage_id: stage.num as u64,
                    task_number: i as u64,
                },
                task_count: stage.tasks.len() as u64,
            },
    )
}

/// The tasks of all the stages of a plan. Those of a stage come after those of the stages that it reads
/// from.
pub open spec fn tasks_of_plan(plan: RunningPlan) -> Seq<Address>
    decreases plan, 0int,
{
    tasks_of_plans(plan.children@) + match plan.stage {
        Some(stage) => tasks_of_stage(stage@),
        None => Seq::empty(),
    }
}

/// The tasks of all the stages of some plans.
pub open spec fn tasks_of_plans(plans: Seq<RunningPlan>) -> Seq<Address>
    decreases plans, 1int,
{
    if plans.len() == 0 {
        Seq::empty()
    } else {
        tasks_of_plans(plans.drop_last()) + tasks_of_plan(plans.last())
    }
}

/// Whom some plans are sent to.
pub open spec fn addresses(sent: Seq<PlanToSendView>) -> Seq<Address> {
    Seq::new(
        sent.len(),
        |k: int| Address { task_key: sent[k].task_key, task_count: sent[k].task_count },
    )
}

/// Whether all plans are sent to workers that there are.
pub open spec fn all_reach_workers(sent: Seq<PlanToSendView>, urls: Seq<String>) -> bool {
    forall|k: int|
        0 <= k < sent.len() ==> is_worker((#[trigger] sent[k]).url, urls)
}

/// Whether there is a worker at an address.
pub open spec fn is_worker(url: Seq<char>, urls: Seq<String>) -> bool {
    exists|w: int| 0 <= w < urls.len() && (#[trigger] urls[w])@ == url
}

proof fn lemma_requests(stage: StageBelowView, bytes: Seq<u8>, urls: Seq<String>, start: int)
    requires
        0 <= start < urls.len(),
    ensures
        addresses(requests(stage, bytes, urls, start)) == tasks_of_stage(stage),
        all_reach_workers(requests(stage, bytes, urls, start), urls),
{
    let sent = requests(stage, bytes, urls, start);
    assert(addresses(sent) =~= tasks_of_stage(stage));
    assert forall|k: int| 0 <= k < sent.len() implies is_worker((#[trigger] sent[k]).url, urls) by {
        let w = (start + k) % (urls.len() as int);
        assert(sent[k].url == urls[w]@);
    }
}

proof fn lemma_addresses_concat(a: Seq<PlanToSendView>, b: Seq<PlanToSendView>, urls: Seq<String>)
    ensures
        addresses(a + b) == addresses(a) + addresses(b),
        all_reach_workers(a, urls) && all_reach_workers(b, urls) ==> all_reach_workers(a + b, urls),
{
    assert(addresses(a + b) =~= addresses(a) + addresses(b));
    if all_reach_workers(a, urls) && all_reach_workers(b, urls) {
        assert forall|k: int| 0 <= k < (a + b).len() implies is_worker(
            (#[trigger] (a + b)[k]).url,
            urls,
        ) by {
            if k < a.len() {
                assert(a[k] == (a + b)[k]);
            } else {
                assert(b[k - a.len()] == (a + b)[k]);
            }
        }
    }
}

/// When a plan is made ready to run, exactly one plan is sent for every task of every stage, to one of the
/// workers, and those for a stage after those for the stages that it reads from. The workers that a
/// network boundary knows for the tasks below it are those that their plans are sent to.
pub proof fn every_task_is_sent_a_plan<E, F>(
    write_plan: F,
    urls: Seq<String>,
    plan: RunningPlan,
    result: Result<Prepared, PrepareError<E>>,
) where F: Fn(&RunningPlan) -> Result<Vec<u8>, E>
    requires
        is_preparation(write_plan, urls, plan, result),
    ensures
        result matches Ok((prepared, sent)) ==> {
            &&& addresses(sent) == tasks_of_plan(plan)
            &&& all_reach_workers(sent, urls)
            &&& prepared.id == plan.id
            &&& plan.stage is None <==> prepared.stage is None
            &&& plan.stage matches Some(stage) ==> (prepared.stage matches Some(below) && {
                let first = sent.len() - stage.tasks@.len();
                &&& below.num == stage.num && below.query_id == stage.query_id
                &&& below.tasks@.len() == stage.tasks@.len()
                &&& 0 <= first
                &&& forall|i: int|
                    0 <= i < stage.tasks@.len() ==> (#[trigger] below@.tasks[i]) == Some(
                        sent[first + i].url,
                    )
            })
        },
    decreases plan, 0int,
{
    if let Ok((prepared, all_sent)) = result {
        let children = choose|
            children: Result<(Seq<RunningPlan>, Seq<PlanToSendView>), PrepareError<E>>,
        | #[trigger]
            some(children) && are_preparations(write_plan, urls, plan.children@, children)
                && match children {
                Err(e) => false,
                Ok((children, sent)) => match plan.stage {
                    None => prepared.id == plan.id && prepared.stage is None && all_sent == sent,
                    Some(stage) => exists|start: int, bytes: Seq<u8>|
                        0 <= start < urls.len() && all_sent == sent + #[trigger] requests(
                            stage@,
                            bytes,
                            urls,
                            start,
                        ) && is_handed_out(plan.id, stage@, urls, start, prepared),
                },
            };
        lemma_all_are_sent_plans(write_plan, urls, plan.children@, children);
        let sent = (children->Ok_0).1;
        match plan.stage {
            None => {
                assert(tasks_of_plan(plan) =~= tasks_of_plans(plan.children@));
            },
            Some(stage) => {
                let (start, bytes) = choose|start: int, bytes: Seq<u8>|
                    0 <= start < urls.len() && all_sent == sent + #[trigger] requests(
                        stage@,
                        bytes,
                        urls,
                        start,
                    ) && is_handed_out(plan.id, stage@, urls, start, prepared);
                let own = requests(stage@, bytes, urls, start);
                lemma_requests(stage@, bytes, urls, start);
                lemma_addresses_concat(sent, own, urls);
                let below = prepared.stage->0;
                assert(below@.tasks == assigned_in_turn(stage@.tasks.len(), urls, start));
                assert(below@.tasks.len() == below.tasks@.len());
                assert forall|i: int| 0 <= i < stage.tasks@.len() implies (
                #[trigger] below@.tasks[i]) == Some(
                    all_sent[all_sent.len() - stage.tasks@.len() + i].url,
                ) by {
                    assert(all_sent[sent.len() + i] == own[i]);
                }
            },
        }
    }
}

proof fn lemma_all_are_sent_plans<E, F>(
    write_plan: F,
    urls: Seq<String>,
    plans: Seq<RunningPlan>,
    result: Result<(Seq<RunningPlan>, Seq<PlanToSendView>), PrepareError<E>>,
) where F: Fn(&RunningPlan) -> Result<Vec<u8>, E>
    requires
        are_preparations(write_plan, urls, plans, result),
    ensures
        result matches Ok((prepared, sent)) ==> prepared.len() == plans.len() && addresses(sent)
            == tasks_of_plans(plans) && all_reach_workers(sent, urls),
    decreases plans, 1int,
{
    if result is Ok {
        let (prepared, sent) = result->Ok_0;
        if plans.len() == 0 {
            assert(addresses(sent) =~= tasks_of_plans(plans));
        } else {
            let before = choose|
                before: Result<(Seq<RunningPlan>, Seq<PlanToSendView>), PrepareError<E>>,
            | #[trigger]
                some(before) && are_preparations(write_plan, urls, plans.drop_last(), before)
                    && match before {
                    Err(e) => false,
                    Ok((front, early)) => exists|last: Result<Prepared, PrepareError<E>>| #[trigger]
                        some(last) && is_preparation(write_plan, urls, plans.last(), last)
                            && match last {
                            Err(e) => false,
                            Ok((one, more)) => prepared == front.push(one) && sent == early + more,
                        },
                };
            let (front, early) = before->Ok_0;
            let last = choose|last: Result<Prepared, PrepareError<E>>| #[trigger]
                some(last) && is_preparation(write_plan, urls, plans.last(), last) && match last {
                    Err(e) => false,
                    Ok((one, more)) => prepared == front.push(one) && sent == early + more,
                };
            lemma_all_are_sent_plans(write_plan, urls, plans.drop_last(), before);
            every_task_is_sent_a_plan(write_plan, urls, plans.last(), last);
            lemma_addresses_concat(early, (last->Ok_0).1, urls);
        }
    }
}

/// Whether the tasks of a stage, and of all the stages below it, are shared fairly: of any tasks in a row
/// that are as many as there are workers, each worker has one.
pub open spec fn is_shared_fairly<P>(stage: StageExec<P>, urls: Seq<String>) -> bool
    decreases stage,
{
    &&& forall|from: int, worker: int|
        0 <= from && from + urls.len() <= stage.tasks@.len() && 0 <= worker < urls.len()
            ==> #[trigger] has_task_among(stage, from, from + urls.len(), urls[worker]@)
    &&& forall|i: int|
        0 <= i < stage.inputs@.len() ==> match #[trigger] stage.inputs@[i] {
            InputStage::Decoded(input) => is_shared_fairly(*input, urls),
            InputStage::Encoded { .. } => true,
        }
}

/// Whether one of some tasks in a row runs on the given worker.
pub open spec fn has_task_among<P>(
    stage: StageExec<P>,
    from: int,
    end: int,
    worker: Seq<char>,
) -> bool {
    exists|t: int|
        from <= t < end && (#[trigger] task_views(stage.tasks@)[t]) == Some(worker)
}

/// Handing out the tasks of a stage, and of all the stages below it, shares them fairly among the workers.
pub proof fn assignments_are_fair<P: Clone>(
    stage: StageExec<P>,
    urls: Seq<String>,
    assigned: StageExec<P>,
)
    requires
        is_assignment(stage, urls, assigned),
    ensures
        is_shared_fairly(assigned, urls),
        assigned.tasks@.len() == stage.tasks@.len(),
    decreases stage,
{
    let n = stage.tasks@.len();
    let start = choose|start: int|
        0 <= start < urls.len() && task_views(assigned.tasks@) == #[trigger] assigned_in_turn(
            n,
            urls,
            start,
        );
    assert(task_views(assigned.tasks@).len() == n);
    assert forall|from: int, worker: int|
        0 <= from && from + urls.len() <= assigned.tasks@.len() && 0 <= worker
            < urls.len() implies #[trigger] has_task_among(
        assigned,
        from,
        from + urls.len(),
        urls[worker]@,
    ) by {
        let t = turns_are_fair(n, urls, start, from, worker);
        assert(task_views(assigned.tasks@)[t] == Some(urls[worker]@));
    }
    assert forall|i: int| 0 <= i < assigned.inputs@.len() implies match
        #[trigger] assigned.inputs@[i] {
        InputStage::Decoded(input) => is_shared_fairly(*input, urls),
        InputStage::Encoded { .. } => true,
    } by {
        let before = stage.inputs@[i];
        match (before, assigned.inputs@[i]) {
            (InputStage::Decoded(input), InputStage::Decoded(input_assigned)) => {
                assignments_are_fair(*input, urls, *input_assigned);
            },
            _ => {},
        }
    }
}

} // verus!
