use crate::stage::{
    assign_in_turn, assigned_in_turn, random_start, task_views, unassigned, unassigned_tasks,
    ExecutionTask, QueryId,
};
use crate::text::{decimal, push_spaces, push_usize, spaces};
use vstd::prelude::*;

verus! {

/// Which task of its stage a plan is running in.
#[derive(Debug, Clone, Copy, PartialEq, Eq, Structural)]
pub struct DistributedTaskContext {
    pub task_index: usize,
}

impl DistributedTaskContext {
    pub fn new(task_index: usize) -> (context: Self)
        ensures
            context.task_index == task_index,
    {
        DistributedTaskContext { task_index }
    }
}

impl Default for DistributedTaskContext {
    /// The first task.
    fn default() -> (context: Self)
        ensures
            context.task_index == 0,
    {
        DistributedTaskContext { task_index: 0 }
    }
}

/// A part of a distributed plan that runs without exchanging data, and the stages that it reads
/// from.
#[derive(Debug)]
pub struct StageExec<P> {
    pub query_id: QueryId,
    pub num: usize,
    pub name: String,
    pub plan: P,
    pub inputs: Vec<InputStage<P>>,
    pub tasks: Vec<ExecutionTask>,
    /// How deep in the tree of stages this one is, for showing it.
    pub depth: usize,
}

/// A stage that another one reads from.
#[derive(Debug)]
pub enum InputStage<P> {
    /// The stage itself.
    Decoded(Box<StageExec<P>>),
    /// The message that stands for the stage, which is passed on unread, with the parts of it that
    /// the reader needs.
    Encoded { num: usize, tasks: Vec<ExecutionTask>, proto: Vec<u8> },
}

/// The number of a stage that another one reads from.
pub open spec fn input_num<P>(input: InputStage<P>) -> usize {
    match input {
        InputStage::Decoded(stage) => stage.num,
        InputStage::Encoded { num, .. } => num,
    }
}

/// The tasks of a stage that another one reads from.
pub open spec fn input_tasks<P>(input: InputStage<P>) -> Seq<ExecutionTask> {
    match input {
        InputStage::Decoded(stage) => stage.tasks@,
        InputStage::Encoded { tasks, .. } => tasks@,
    }
}

impl<P> InputStage<P> {
    pub fn num(&self) -> (num: usize)
        ensures
            num == input_num(*self),
    {
        match self {
            InputStage::Decoded(stage) => stage.num,
            InputStage::Encoded { num, .. } => *num,
        }
    }

    pub fn tasks(&self) -> (tasks: &Vec<ExecutionTask>)
        ensures
            tasks@ == input_tasks(*self),
    {
        match self {
            InputStage::Decoded(stage) => &stage.tasks,
            InputStage::Encoded { tasks, .. } => tasks,
        }
    }
}

/// The name of a stage: its number, padded to three characters.
pub open spec fn stage_name(num: usize) -> Seq<char> {
    let digits = decimal(num as nat);
    "Stage "@ + digits + spaces(if digits.len() < 3 { (3 - digits.len()) as nat } else { 0 })
}

proof fn lemma_decimal_width(n: nat)
    ensures
        decimal(n).len() >= 1,
        decimal(n).len() == 1 <==> n < 10,
        decimal(n).len() <= 2 <==> n < 100,
    decreases n,
{
    if n >= 10 {
        lemma_decimal_width(n / 10);
    }
}

/// The name of a stage.
pub fn format_stage_name(num: usize) -> (name: String)
    ensures
        name@ == stage_name(num),
{
    let mut name = String::new();
    name.push_str("Stage ");
    push_usize(&mut name, num);
    let padding: usize = if num < 10 {
        2
    } else if num < 100 {
        1
    } else {
        0
    };
    push_spaces(&mut name, padding);
    proof {
        lemma_decimal_width(num as nat);
        assert(name@ =~= stage_name(num));
    }
    name
}

/// Whether every stage below this one is at hand, and not only its message.
pub open spec fn is_decoded<P>(stage: StageExec<P>) -> bool
    decreases stage,
{
    forall|i: int|
        0 <= i < stage.inputs@.len() ==> match #[trigger] stage.inputs@[i] {
            InputStage::Decoded(input) => is_decoded(*input),
            InputStage::Encoded { .. } => false,
        }
}

/// Whether the first stage without further inputs that is reached from this one is only a message.
pub open spec fn begins_encoded<P>(stage: StageExec<P>) -> bool
    decreases stage,
{
    stage.inputs@.len() > 0 && match stage.inputs@[0] {
        InputStage::Decoded(input) => begins_encoded(*input),
        InputStage::Encoded { .. } => true,
    }
}

/// Whether `assigned` is `stage` with the tasks of every stage handed out to the workers in turn,
/// beginning with any worker in each stage.
pub open spec fn is_assignment<P: Clone>(
    stage: StageExec<P>,
    urls: Seq<String>,
    assigned: StageExec<P>,
) -> bool
    decreases stage,
{
    &&& assigned.query_id == stage.query_id
    &&& assigned.num == stage.num
    &&& assigned.name@ == stage.name@
    &&& cloned(stage.plan, assigned.plan)
    &&& assigned.depth == stage.depth
    &&& exists|start: int|
        0 <= start < urls.len() && task_views(assigned.tasks@) == #[trigger] assigned_in_turn(
            stage.tasks@.len(),
            urls,
            start,
        )
    &&& assigned.inputs@.len() == stage.inputs@.len()
    &&& forall|i: int|
        0 <= i < stage.inputs@.len() ==> match (
            #[trigger] stage.inputs@[i],
            assigned.inputs@[i],
        ) {
            (InputStage::Decoded(input), InputStage::Decoded(input_assigned)) => is_assignment(
                *input,
                urls,
                *input_assigned,
            ),
            _ => false,
        }
}

/// Why a stage cannot run as it is.
#[derive(Debug, Clone, Copy, PartialEq, Eq, Structural)]
pub enum StageError {
    EncodedInput,
    NoInputStage(usize),
    ManyPartitions(usize),
}

/// The text of an error.
pub open spec fn stage_error_text(error: StageError) -> Seq<char> {
    match error {
        StageError::EncodedInput => "Cannot assign URLs to the tasks in an encoded stage"@,
        StageError::NoInputStage(num) => "no child stage with num "@ + decimal(num as nat),
        StageError::ManyPartitions(partition) =>
            "an executable StageExec must only have 1 partition, but it was called with partition index "@
            + decimal(partition as nat),
    }
}

impl StageError {
    /// The text of the error.
    pub fn message(&self) -> (text: String)
        ensures
            text@ == stage_error_text(*self),
    {
        let mut text = String::new();
        match self {
            StageError::EncodedInput => {
                text.push_str("Cannot assign URLs to the tasks in an encoded stage");
            },
            StageError::NoInputStage(num) => {
                text.push_str("no child stage with num ");
                push_usize(&mut text, *num);
            },
            StageError::ManyPartitions(partition) => {
                text.push_str(
                    "an executable StageExec must only have 1 partition, but it was called with partition index ",
                );
                push_usize(&mut text, *partition);
            },
        }
        proof {
            assert(text@ =~= stage_error_text(*self));
        }
        text
    }
}

impl<P> StageExec<P> {
    /// A stage whose tasks have no workers yet, which reads from the given stages.
    pub fn new(
        query_id: QueryId,
        num: usize,
        plan: P,
        inputs: Vec<StageExec<P>>,
        n_tasks: usize,
    ) -> (stage: Self)
        ensures
            stage.query_id == query_id,
            stage.num == num,
            stage.name@ == stage_name(num),
            stage.plan == plan,
            stage.depth == 0,
            task_views(stage.tasks@) == unassigned(n_tasks as nat),
            stage.inputs@ == Seq::new(
                inputs@.len(),
                |i: int| InputStage::Decoded(Box::new(inputs@[i])),
            ),
    {
        let mut decoded: Vec<InputStage<P>> = Vec::new();
        for input in it: inputs
            invariant
                decoded@ == Seq::new(
                    it.index() as nat,
                    |i: int| InputStage::Decoded(Box::new(it.seq()[i])),
                ),
        {
            decoded.push(InputStage::Decoded(Box::new(input)));
        }
        StageExec {
            query_id,
            num,
            name: format_stage_name(num),
            plan,
            inputs: decoded,
            tasks: unassigned_tasks(n_tasks),
            depth: 0,
        }
    }

    /// The name of the stage.
    pub fn name(&self) -> (name: String)
        ensures
            name@ == stage_name(self.num),
    {
        format_stage_name(self.num)
    }

    /// The stages that this one reads from.
    pub fn input_stages_iter(&self) -> (inputs: &Vec<InputStage<P>>)
        ensures
            *inputs == self.inputs,
    {
        &self.inputs
    }

    /// The stage with the given number that this one reads from: the first of them.
    pub fn input_stage(&self, stage_num: usize) -> (result: Result<&InputStage<P>, StageError>)
        ensures
            match result {
                Ok(input) => exists|i: int|
                    0 <= i < self.inputs@.len() && *input == #[trigger] self.inputs@[i]
                        && input_num(*input) == stage_num && forall|j: int|
                        0 <= j < i ==> input_num(#[trigger] self.inputs@[j]) != stage_num,
                Err(e) => e == StageError::NoInputStage(stage_num) && forall|j: int|
                    0 <= j < self.inputs@.len() ==> input_num(#[trigger] self.inputs@[j])
                        != stage_num,
            },
    {
        for i in 0..self.inputs.len()
            invariant
                forall|j: int| 0 <= j < i ==> input_num(#[trigger] self.inputs@[j]) != stage_num,
        {
            if self.inputs[i].num() == stage_num {
                return Ok(&self.inputs[i]);
            }
        }
        Err(StageError::NoInputStage(stage_num))
    }

    /// The stages below this one that are at hand.
    pub fn children(&self) -> (children: Vec<&StageExec<P>>)
        ensures
            Seq::new(children@.len(), |i: int| *children@[i]) == decoded_inputs(self.inputs@),
    {
        let mut children: Vec<&StageExec<P>> = Vec::new();
        proof {
            assert(self.inputs@.take(0) =~= Seq::empty());
        }
        for i in 0..self.inputs.len()
            invariant
                Seq::new(children@.len(), |k: int| *children@[k]) == decoded_inputs(
                    self.inputs@.take(i as int),
                ),
        {
            proof {
                assert(self.inputs@.take(i + 1).drop_last() =~= self.inputs@.take(i as int));
            }
            let ghost before = Seq::new(children@.len(), |k: int| *children@[k]);
            match &self.inputs[i] {
                InputStage::Decoded(stage) => {
                    children.push(stage);
                    proof {
                        assert(Seq::new(children@.len(), |k: int| *children@[k]) =~= before.push(
                            **stage,
                        ));
                    }
                },
                InputStage::Encoded { .. } => {},
            }
        }
        proof {
            assert(self.inputs@.take(self.inputs@.len() as int) =~= self.inputs@);
        }
        children
    }

    /// The same stage, reading from other stages.
    pub fn with_new_children(self, children: Vec<StageExec<P>>) -> (stage: Self)
        ensures
            stage.query_id == self.query_id,
            stage.num == self.num,
            stage.name == self.name,
            stage.plan == self.plan,
            stage.tasks == self.tasks,
            stage.depth == self.depth,
            stage.inputs@ == Seq::new(
                children@.len(),
                |i: int| InputStage::Decoded(Box::new(children@[i])),
            ),
    {
        let mut inputs: Vec<InputStage<P>> = Vec::new();
        for child in it: children
            invariant
                inputs@ == Seq::new(
                    it.index() as nat,
                    |i: int| InputStage::Decoded(Box::new(it.seq()[i])),
                ),
        {
            inputs.push(InputStage::Decoded(Box::new(child)));
        }
        StageExec {
            query_id: self.query_id,
            num: self.num,
            name: self.name,
            plan: self.plan,
            inputs,
            tasks: self.tasks,
            depth: self.depth,
        }
    }
}

/// The inputs that are at hand.
pub open spec fn decoded_inputs<P>(inputs: Seq<InputStage<P>>) -> Seq<StageExec<P>>
    decreases inputs.len(),
{
    if inputs.len() == 0 {
        Seq::empty()
    } else {
        let before = decoded_inputs(inputs.drop_last());
        match inputs.last() {
            InputStage::Decoded(stage) => before.push(*stage),
            InputStage::Encoded { .. } => before,
        }
    }
}

impl<P: Clone> StageExec<P> {
    /// Hands the tasks of this stage and of all the stages below it out to the workers, in turn
    /// from a random one. A stage of which there is only a message cannot be changed.
    pub fn try_assign_urls(&self, urls: &Vec<String>) -> (result: Result<Self, StageError>)
        requires
            urls@.len() > 0 || begins_encoded(*self),
        ensures
            match result {
                Ok(assigned) => is_decoded(*self) && is_assignment(*self, urls@, assigned),
                Err(e) => !is_decoded(*self) && e == StageError::EncodedInput,
            },
        decreases *self,
    {
        let mut inputs: Vec<InputStage<P>> = Vec::new();
        for i in 0..self.inputs.len()
            invariant
                urls@.len() > 0 || (i == 0 && begins_encoded(*self)),
                inputs@.len() == i,
                forall|j: int|
                    0 <= j < i ==> match (#[trigger] self.inputs@[j], inputs@[j]) {
                        (
                            InputStage::Decoded(input),
                            InputStage::Decoded(input_assigned),
                        ) => is_decoded(*input) && is_assignment(*input, urls@, *input_assigned),
                        _ => false,
                    },
        {
            match &self.inputs[i] {
                InputStage::Encoded { .. } => {
                    proof {
                        assert(self.inputs@[i as int] is Encoded);
                    }
                    return Err(StageError::EncodedInput);
                },
                InputStage::Decoded(input) => {
                    proof {
                        assert(self.inputs@[i as int] == InputStage::Decoded(*input));
                        assert(decreases_to!(*self => **input));
                    }
                    match input.try_assign_urls(urls) {
                        Err(e) => {
                            return Err(e);
                        },
                        Ok(assigned) => {
                            proof {
                                if urls@.len() == 0 {
                                    lemma_begins_encoded(**input);
                                }
                            }
                            inputs.push(InputStage::Decoded(Box::new(assigned)));
                        },
                    }
                },
            }
        }
        let start: usize = random_start(urls.len());
        let tasks = assign_in_turn(self.tasks.len(), urls, start);
        let assigned = StageExec {
            query_id: self.query_id,
            num: self.num,
            name: self.name.clone(),
            plan: self.plan.clone(),
            inputs,
            tasks,
            depth: self.depth,
        };
        proof {
            assert(0 <= start as int);
            assert(task_views(assigned.tasks@) == assigned_in_turn(
                self.tasks@.len(),
                urls@,
                start as int,
            ));
        }
        Ok(assigned)
    }

    /// Makes the stage ready to run on the workers. It is run once, as a single partition: each
    /// time the workers would be different ones.
    pub fn prepare(&self, partition: usize, urls: &Vec<String>) -> (result: Result<
        Self,
        StageError,
    >)
        requires
            partition == 0 ==> urls@.len() > 0 || begins_encoded(*self),
        ensures
            match result {
                Ok(assigned) => partition == 0 && is_decoded(*self) && is_assignment(
                    *self,
                    urls@,
                    assigned,
                ),
                Err(e) => if partition > 0 {
                    e == StageError::ManyPartitions(partition)
                } else {
                    !is_decoded(*self) && e == StageError::EncodedInput
                },
            },
    {
        if partition > 0 {
            return Err(StageError::ManyPartitions(partition));
        }
        self.try_assign_urls(urls)
    }
}

proof fn lemma_begins_encoded<P>(stage: StageExec<P>)
    requires
        begins_encoded(stage),
    ensures
        !is_decoded(stage),
    decreases stage,
{
    match stage.inputs@[0] {
        InputStage::Decoded(input) => {
            lemma_begins_encoded(*input);
        },
        InputStage::Encoded { .. } => {},
    }
}

/// Assigning workers changes nothing but the workers: each stage keeps its number and the count of
/// its tasks.
pub proof fn assignment_keeps_the_tasks<P: Clone>(
    stage: StageExec<P>,
    urls: Seq<String>,
    assigned: StageExec<P>,
)
    requires
        is_assignment(stage, urls, assigned),
    ensures
        assigned.num == stage.num,
        assigned.tasks@.len() == stage.tasks@.len(),
        forall|t: int|
            0 <= t < assigned.tasks@.len() ==> (#[trigger] assigned.tasks@[t]).url is Some,
        is_decoded(stage),
        is_decoded(assigned),
    decreases stage,
{
    let start = choose|start: int|
        0 <= start < urls.len() && task_views(assigned.tasks@) == #[trigger] assigned_in_turn(
            stage.tasks@.len(),
            urls,
            start,
        );
    assert(task_views(assigned.tasks@).len() == stage.tasks@.len());
    assert forall|t: int| 0 <= t < assigned.tasks@.len() implies (
    #[trigger] assigned.tasks@[t]).url is Some by {
        assert(task_views(assigned.tasks@)[t] is Some);
    }
    assert forall|i: int| 0 <= i < stage.inputs@.len() implies match #[trigger] stage.inputs@[i] {
        InputStage::Decoded(input) => is_decoded(*input),
        InputStage::Encoded { .. } => false,
    } by {
        match (stage.inputs@[i], assigned.inputs@[i]) {
            (InputStage::Decoded(input), InputStage::Decoded(input_assigned)) => {
                assignment_keeps_the_tasks(*input, urls, *input_assigned);
            },
            _ => {},
        }
    }
    assert forall|i: int| 0 <= i < assigned.inputs@.len() implies match #[trigger] assigned.inputs@[i] {
        InputStage::Decoded(input) => is_decoded(*input),
        InputStage::Encoded { .. } => false,
    } by {
        match (stage.inputs@[i], assigned.inputs@[i]) {
            (InputStage::Decoded(input), InputStage::Decoded(input_assigned)) => {
                assignment_keeps_the_tasks(*input, urls, *input_assigned);
            },
            _ => {},
        }
    }
}

} // verus!
