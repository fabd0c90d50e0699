use crate::text::text_view;
use vstd::prelude::*;

verus! {

/// Which task of its stage a plan is running in.
#[derive(Debug, Clone, Copy, PartialEq, Eq, Structural)]
pub struct DistributedTaskContext {
    pub task_index: usize,
    pub task_count: usize,
}

/// Tells queries apart.
#[derive(Debug, Clone, Copy, PartialEq, Eq)]
pub struct QueryId {
    pub bytes: [u8; 16],
}

/// `uuid::Uuid::from_slice` takes the identifier that sixteen bytes spell out, and refuses any
/// other number of bytes.
#[verifier::external_body]
pub(crate) fn uuid_from_slice(bytes: &Vec<u8>) -> (id: Option<QueryId>)
    ensures
        id is Some <==> bytes@.len() == 16,
        id is Some ==> id->0.bytes@ == bytes@,
{
    uuid::Uuid::from_slice(bytes).ok().map(|id| QueryId { bytes: id.into_bytes() })
}

impl QueryId {
    /// The bytes of the identifier.
    pub fn to_vec(&self) -> (bytes: Vec<u8>)
        ensures
            bytes@ == self.bytes@,
    {
        let mut bytes: Vec<u8> = Vec::new();
        for i in 0..16
            invariant
                bytes@.len() == i,
                forall|j: int| 0 <= j < i ==> bytes@[j] == self.bytes@[j],
        {
            bytes.push(self.bytes[i]);
        }
        bytes
    }
}

/// What the URL parser makes of a text: the normal form of the URL that it spells, or nothing
/// where it spells none.
pub uninterp spec fn parsed_url(text: Seq<char>) -> Option<Seq<char>>;

/// `url::Url::parse` reads an absolute URL. What comes back is its serialization, as
/// `Url::to_string` gives it, or nothing where the parser gives an error. How the text is parsed
/// and which error comes is left unsaid.
#[verifier::external_body]
pub(crate) fn parse_url(text: &str) -> (url: Option<String>)
    ensures
        match url {
            Some(u) => parsed_url(text@) == Some(u@),
            None => parsed_url(text@) is None,
        },
{
    url::Url::parse(text).ok().map(|url| url.to_string())
}

/// A task of a stage.
#[derive(Debug, PartialEq, Eq)]
pub struct ExecutionTask {
    /// The worker that runs the task, in normal form, once one is chosen.
    pub url: Option<String>,
}

impl View for ExecutionTask {
    type V = Option<Seq<char>>;

    open spec fn view(&self) -> Option<Seq<char>> {
        text_view(self.url)
    }
}

impl Clone for ExecutionTask {
    fn clone(&self) -> (copy: Self)
        ensures
            copy@ == self@,
    {
        let url = match &self.url {
            Some(u) => Some(u.clone()),
            None => None,
        };
        ExecutionTask { url }
    }
}

/// The workers of some tasks.
pub open spec fn task_views(tasks: Seq<ExecutionTask>) -> Seq<Option<Seq<char>>> {
    Seq::new(tasks.len(), |i: int| tasks[i]@)
}

/// A part of a distributed plan that runs on the same workers without exchanging data. The plan is
/// absent where only the fact that the stage exists is of use.
#[derive(Debug)]
pub struct Stage<P> {
    pub query_id: QueryId,
    pub num: usize,
    pub plan: Option<P>,
    pub tasks: Vec<ExecutionTask>,
}

/// The contents of a [Stage].
#[verifier::ext_equal]
pub struct StageView<P> {
    pub query_id: Seq<u8>,
    pub num: usize,
    pub plan: Option<P>,
    pub tasks: Seq<Option<Seq<char>>>,
}

impl<P> View for Stage<P> {
    type V = StageView<P>;

    open spec fn view(&self) -> StageView<P> {
        StageView {
            query_id: self.query_id.bytes@,
            num: self.num,
            plan: self.plan,
            tasks: task_views(self.tasks@),
        }
    }
}

/// Tasks that no worker has been chosen for.
pub open spec fn unassigned(n: nat) -> Seq<Option<Seq<char>>> {
    Seq::new(n, |i: int| None)
}

impl<P> Stage<P> {
    /// A stage whose tasks have no workers yet.
    pub fn new(query_id: QueryId, num: usize, plan: P, n_tasks: usize) -> (stage: Self)
        ensures
            stage.query_id == query_id,
            stage.num == num,
            stage.plan == Some(plan),
            stage@.tasks == unassigned(n_tasks as nat),
    {
        let tasks = unassigned_tasks(n_tasks);
        Stage { query_id, num, plan: Some(plan), tasks }
    }
}

/// Tasks that no worker has been chosen for.
pub fn unassigned_tasks(n: usize) -> (tasks: Vec<ExecutionTask>)
    ensures
        task_views(tasks@) == unassigned(n as nat),
{
    let mut tasks: Vec<ExecutionTask> = Vec::new();
    for i in 0..n
        invariant
            tasks@.len() == i,
            forall|j: int| 0 <= j < i ==> (#[trigger] tasks@[j])@ is None,
    {
        tasks.push(ExecutionTask { url: None });
    }
    proof {
        assert(task_views(tasks@) =~= unassigned(n as nat));
    }
    tasks
}

/// `rand::random_range` picks some number of the range, and panics where the range is empty. Which
/// one it picks is left to chance.
#[verifier::external_body]
pub(crate) fn random_start(n: usize) -> (start: usize)
    requires
        n > 0,
    ensures
        start < n,
{
    rand::random_range(0..n)
}

/// The tasks of a stage once they are handed out to the workers in turn, beginning with the worker
/// at `start`.
pub open spec fn assigned_in_turn(n: nat, urls: Seq<String>, start: int) -> Seq<Option<Seq<char>>> {
    Seq::new(n, |i: int| Some(urls[(start + i) % (urls.len() as int)]@))
}

/// The place `i` steps after `start` on a ring of `n` places.
pub(crate) fn in_turn(start: usize, i: usize, n: usize) -> (place: usize)
    requires
        start < n,
    ensures
        place == (start + i) % (n as int),
        place < n,
{
    let step: usize = i % n;
    proof {
        vstd::arithmetic::div_mod::lemma_add_mod_noop_right(start as int, i as int, n as int);
        assert((start + step) % (n as int) == (start + i) % (n as int));
        if start + step < n {
            vstd::arithmetic::div_mod::lemma_small_mod((start + step) as nat, n as nat);
        } else {
            vstd::arithmetic::div_mod::lemma_mod_sub_multiples_vanish(
                (start + step) as int,
                n as int,
            );
            vstd::arithmetic::div_mod::lemma_small_mod((start + step - n) as nat, n as nat);
        }
    }
    if step < n - start {
        start + step
    } else {
        step - (n - start)
    }
}

/// Hands the tasks of a stage out to the workers in turn, beginning with the worker at `start`.
pub fn assign_in_turn(n_tasks: usize, urls: &Vec<String>, start: usize) -> (tasks: Vec<
    ExecutionTask,
>)
    requires
        start < urls@.len(),
    ensures
        task_views(tasks@) == assigned_in_turn(n_tasks as nat, urls@, start as int),
{
    let mut tasks: Vec<ExecutionTask> = Vec::new();
    for i in 0..n_tasks
        invariant
            start < urls@.len(),
            tasks@.len() == i,
            forall|j: int|
                0 <= j < i ==> (#[trigger] tasks@[j])@ == Some(
                    urls@[(start + j) % (urls@.len() as int)]@,
                ),
    {
        let place: usize = in_turn(start, i, urls.len());
        tasks.push(ExecutionTask { url: Some(urls[place].clone()) });
    }
    proof {
        assert(task_views(tasks@) =~= assigned_in_turn(n_tasks as nat, urls@, start as int));
    }
    tasks
}

/// The work is spread evenly: of any tasks in a row, as many as there are workers, each worker
/// runs exactly one.
pub proof fn turns_are_fair(n: nat, urls: Seq<String>, start: int, from: int, worker: int) -> (task:
    int)
    requires
        0 <= start < urls.len(),
        0 <= from,
        from + urls.len() <= n,
        0 <= worker < urls.len(),
    ensures
        from <= task < from + urls.len(),
        assigned_in_turn(n, urls, start)[task] == Some(urls[worker]@),
        forall|other: int|
            from <= other < from + urls.len() && #[trigger] ((start + other) % (urls.len() as int))
                == worker ==> other == task,
{
    let k = urls.len() as int;
    let first = (start + from) % k;
    let step = if worker >= first { worker - first } else { worker - first + k };
    let task = from + step;
    let q = (start + from) / k;
    vstd::arithmetic::div_mod::lemma_fundamental_div_mod(start + from, k);
    assert((start + task) % k == worker) by {
        if worker >= first {
            assert(start + task == q * k + worker) by (nonlinear_arith)
                requires
                    start + from == k * q + first,
                    task == from + worker - first,
            ;
            vstd::arithmetic::div_mod::lemma_fundamental_div_mod_converse(start + task, k, q, worker);
        } else {
            assert(start + task == (q + 1) * k + worker) by (nonlinear_arith)
                requires
                    start + from == k * q + first,
                    task == from + worker - first + k,
            ;
            vstd::arithmetic::div_mod::lemma_fundamental_div_mod_converse(
                start + task,
                k,
                q + 1,
                worker,
            );
        }
    }
    assert forall|other: int|
        from <= other < from + urls.len() && #[trigger] ((start + other) % (urls.len() as int))
            == worker implies other == task by {
        let a = (start + other) / k;
        let b = (start + task) / k;
        vstd::arithmetic::div_mod::lemma_fundamental_div_mod(start + other, k);
        vstd::arithmetic::div_mod::lemma_fundamental_div_mod(start + task, k);
        assert(a == b) by (nonlinear_arith)
            requires
                k > 0,
                start + other == k * a + worker,
                start + task == k * b + worker,
                other - task < k,
                task - other < k,
        ;
    }
    task
}

} // verus!
