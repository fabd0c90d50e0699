use crate::protobuf::errors::datafusion_error::DataFusionError;
use crate::text::DisplayFormatType;
use vstd::prelude::*;

verus! {

/// A span of time.
#[derive(Debug, Clone, Copy, PartialEq, Eq, Structural)]
pub struct Delay {
    pub secs: u64,
    pub nanos: u32,
}

/// What a batch of a partition is: a batch of rows or an error.
pub type MockBatch<B> = Result<B, DataFusionError>;

/// A leaf that hands out given batches.
#[derive(Debug)]
pub struct MockExec<B> {
    /// The batches of each partition.
    pub data: Vec<Vec<MockBatch<B>>>,
    pub partitions: usize,
    /// Whether the batches are sent by another task, so that they are not there at once.
    pub use_task: bool,
    /// How long each batch takes.
    pub delay: Option<Delay>,
    /// Whether others are told when a partition is run.
    pub start_notify: bool,
    /// Whether nothing is handed out until that is permitted.
    pub gated: bool,
    /// How often each partition was run.
    pub execute_counts: Option<Vec<usize>>,
}

/// What comes next from a partition.
#[derive(Debug, Clone, Copy, PartialEq, Eq, Structural)]
pub enum MockAction {
    /// Wait until batches may be handed out.
    WaitForGate,
    /// Wait for as long as a batch takes.
    Sleep,
    /// Hand out the batch at this place.
    Emit(usize),
    End,
}

/// A partition that is being run.
#[derive(Debug, Clone, Copy, PartialEq, Eq, Structural)]
pub struct MockStream {
    pub partition: usize,
    /// The number of batches.
    pub len: usize,
    /// The next batch.
    pub next: usize,
    pub gate_done: bool,
    /// Whether batches take time.
    pub delayed: bool,
    /// Whether the next batch has taken its time.
    pub slept: bool,
}

impl MockStream {
    /// What comes next. `gate_open` tells whether batches may be handed out. Once they may, they are
    /// handed out in order, each after it has taken its time.
    pub fn step(&mut self, gate_open: bool) -> (action: MockAction)
        requires
            old(self).next <= old(self).len,
        ensures
            final(self).next <= final(self).len,
            final(self).partition == old(self).partition,
            final(self).len == old(self).len,
            final(self).delayed == old(self).delayed,
            final(self).gate_done == (old(self).gate_done || gate_open),
            if !old(self).gate_done && !gate_open {
                &&& action == MockAction::WaitForGate
                &&& final(self).next == old(self).next
                &&& final(self).slept == old(self).slept
            } else if old(self).next == old(self).len {
                &&& action == MockAction::End
                &&& final(self).next == old(self).next
                &&& final(self).slept == old(self).slept
            } else if old(self).delayed && !old(self).slept {
                &&& action == MockAction::Sleep
                &&& final(self).next == old(self).next
                &&& final(self).slept
            } else {
                &&& action == MockAction::Emit(old(self).next)
                &&& final(self).next == old(self).next + 1
                &&& !final(self).slept
            },
    {
        if !self.gate_done {
            if !gate_open {
                return MockAction::WaitForGate;
            }
            self.gate_done = true;
        }
        if self.next == self.len {
            return MockAction::End;
        }
        if self.delayed && !self.slept {
            self.slept = true;
            return MockAction::Sleep;
        }
        let i: usize = self.next;
        self.next = i + 1;
        self.slept = false;
        MockAction::Emit(i)
    }
}

/// Whether an error can be handed out more than once.
pub open spec fn is_repeatable(error: DataFusionError) -> bool {
    error is Execution
}

/// Whether all the errors among some batches can be handed out more than once.
pub open spec fn all_repeatable<B>(batches: Seq<MockBatch<B>>) -> bool {
    forall|i: int|
        0 <= i < batches.len() ==> (#[trigger] batches[i] matches Err(e) ==> is_repeatable(e))
}

/// The same error once more.
pub fn clone_error(e: &DataFusionError) -> (copy: DataFusionError)
    requires
        is_repeatable(*e),
    ensures
        copy is Execution,
        copy@ == e@,
{
    match e {
        DataFusionError::Execution(message) => DataFusionError::Execution(message.clone()),
        _ => DataFusionError::Execution(String::new()),
    }
}

/// The first error among some batches, if there is one.
pub open spec fn first_error<B>(batches: Seq<MockBatch<B>>) -> Option<DataFusionError>
    decreases batches.len(),
{
    if batches.len() == 0 {
        None
    } else {
        match first_error(batches.drop_last()) {
            Some(e) => Some(e),
            None => match batches.last() {
                Err(e) => Some(e),
                Ok(_) => None,
            },
        }
    }
}

/// The first error among the batches of some partitions, if there is one.
pub open spec fn first_error_of<B>(data: Seq<Vec<MockBatch<B>>>) -> Option<DataFusionError>
    decreases data.len(),
{
    if data.len() == 0 {
        None
    } else {
        match first_error_of(data.drop_last()) {
            Some(e) => Some(e),
            None => first_error(data.last()@),
        }
    }
}

proof fn lemma_first_error_prefix<B>(batches: Seq<MockBatch<B>>, n: int)
    requires
        0 <= n <= batches.len(),
        first_error(batches.take(n)) is Some,
    ensures
        first_error(batches) == first_error(batches.take(n)),
    decreases batches.len() - n,
{
    if n == batches.len() {
        assert(batches.take(n) =~= batches);
    } else {
        assert(batches.take(n + 1).drop_last() =~= batches.take(n));
        lemma_first_error_prefix(batches, n + 1);
    }
}

proof fn lemma_first_error_of_prefix<B>(data: Seq<Vec<MockBatch<B>>>, n: int)
    requires
        0 <= n <= data.len(),
        first_error_of(data.take(n)) is Some,
    ensures
        first_error_of(data) == first_error_of(data.take(n)),
    decreases data.len() - n,
{
    if n == data.len() {
        assert(data.take(n) =~= data);
    } else {
        assert(data.take(n + 1).drop_last() =~= data.take(n));
        lemma_first_error_of_prefix(data, n + 1);
    }
}

fn find_error<B>(batches: &Vec<MockBatch<B>>) -> (error: Option<DataFusionError>)
    requires
        first_error(batches@) matches Some(e) ==> is_repeatable(e),
    ensures
        match first_error(batches@) {
            Some(e) => error matches Some(found) && found@ == e@,
            None => error is None,
        },
{
    proof {
        assert(batches@.take(0) =~= Seq::empty());
    }
    for i in 0..batches.len()
        invariant
            first_error(batches@) matches Some(e) ==> is_repeatable(e),
            first_error(batches@.take(i as int)) is None,
    {
        proof {
            assert(batches@.take(i + 1).drop_last() =~= batches@.take(i as int));
        }
        match &batches[i] {
            Err(e) => {
                proof {
                    assert(batches@[i as int] == Err::<B, DataFusionError>(*e));
                    lemma_first_error_prefix(batches@, i + 1);
                }
                return Some(clone_error(e));
            },
            Ok(_) => {},
        }
    }
    proof {
        assert(batches@.take(batches@.len() as int) =~= batches@);
    }
    None
}

impl<B> MockExec<B> {
    /// Hands out the given batches as a single partition.
    pub fn new(data: Vec<MockBatch<B>>) -> (exec: Self)
        ensures
            exec.data@ == seq![data],
            exec.partitions == 1,
            exec.use_task,
            exec.delay is None,
            !exec.start_notify,
            !exec.gated,
            exec.execute_counts is None,
    {
        let mut partitions: Vec<Vec<MockBatch<B>>> = Vec::new();
        partitions.push(data);
        MockExec {
            data: partitions,
            partitions: 1,
            use_task: true,
            delay: None,
            start_notify: false,
            gated: false,
            execute_counts: None,
        }
    }

    /// Hands out the given batches of each partition. There is at least one partition.
    pub fn new_partitioned(data: Vec<Vec<MockBatch<B>>>) -> (exec: Self)
        ensures
            exec.data == data,
            exec.partitions == if data@.len() == 0 {
                1
            } else {
                data@.len()
            },
            exec.use_task,
            exec.delay is None,
            !exec.start_notify,
            !exec.gated,
            exec.execute_counts is None,
    {
        let n: usize = data.len();
        MockExec {
            data,
            partitions: if n == 0 {
                1
            } else {
                n
            },
            use_task: true,
            delay: None,
            start_notify: false,
            gated: false,
            execute_counts: None,
        }
    }

    /// Whether the batches are sent by another task.
    pub fn with_use_task(self, use_task: bool) -> (exec: Self)
        ensures
            exec == (MockExec { use_task, ..self }),
    {
        let mut exec = self;
        exec.use_task = use_task;
        exec
    }

    /// Makes each batch take some time.
    pub fn with_delay_between_batches(self, delay: Delay) -> (exec: Self)
        ensures
            exec == (MockExec { delay: Some(delay), ..self }),
    {
        let mut exec = self;
        exec.delay = Some(delay);
        exec
    }

    /// Tells others when a partition is run.
    pub fn with_start_notify(self) -> (exec: Self)
        ensures
            exec == (MockExec { start_notify: true, ..self }),
    {
        let mut exec = self;
        exec.start_notify = true;
        exec
    }

    /// Hands nothing out until that is permitted.
    pub fn with_gate(self) -> (exec: Self)
        ensures
            exec == (MockExec { gated: true, ..self }),
    {
        let mut exec = self;
        exec.gated = true;
        exec
    }

    /// Counts how often each partition is run, on from the given counts.
    pub fn with_execute_counts(self, execute_counts: Vec<usize>) -> (exec: Self)
        ensures
            exec == (MockExec { execute_counts: Some(execute_counts), ..self }),
    {
        let mut exec = self;
        exec.execute_counts = Some(execute_counts);
        exec
    }

    /// Runs a partition.
    pub fn execute(&mut self, partition: usize) -> (stream: MockStream)
        requires
            partition < old(self).partitions,
            partition < old(self).data@.len(),
            old(self).execute_counts matches Some(counts) ==> partition < counts@.len(),
            all_repeatable(old(self).data@[partition as int]@),
        ensures
            stream == (MockStream {
                partition,
                len: old(self).data@[partition as int]@.len() as usize,
                next: 0,
                gate_done: !old(self).gated,
                delayed: old(self).delay matches Some(d) && (d.secs > 0 || d.nanos > 0),
                slept: false,
            }),
            final(self).data == old(self).data,
            final(self).partitions == old(self).partitions,
            final(self).use_task == old(self).use_task,
            final(self).delay == old(self).delay,
            final(self).start_notify == old(self).start_notify,
            final(self).gated == old(self).gated,
            match (old(self).execute_counts, final(self).execute_counts) {
                (Some(before), Some(after)) => after@ == before@.update(
                    partition as int,
                    if before@[partition as int] == usize::MAX {
                        0
                    } else {
                        (before@[partition as int] + 1) as usize
                    },
                ),
                (None, None) => true,
                _ => false,
            },
    {
        match self.execute_counts.take() {
            Some(counts) => {
                let mut counts = counts;
                let count: usize = counts[partition];
                counts.set(partition, count.wrapping_add(1));
                self.execute_counts = Some(counts);
            },
            None => {},
        }
        let delayed = match self.delay {
            Some(delay) => delay.secs > 0 || delay.nanos > 0,
            None => false,
        };
        MockStream {
            partition,
            len: self.data[partition].len(),
            next: 0,
            gate_done: !self.gated,
            delayed,
            slept: false,
        }
    }

    /// Whether the statistics of the rows are known: those of all partitions together are, unless one
    /// of their batches is an error, which is then the error here.
    pub fn partition_statistics(&self, partition: Option<usize>) -> (result: Result<
        bool,
        DataFusionError,
    >)
        requires
            partition is None ==> (first_error_of(self.data@) matches Some(e) ==> is_repeatable(e)),
        ensures
            if partition is Some {
                result == Ok::<bool, DataFusionError>(false)
            } else {
                match first_error_of(self.data@) {
                    Some(e) => result matches Err(error) && error@ == e@,
                    None => result == Ok::<bool, DataFusionError>(true),
                }
            },
    {
        if partition.is_some() {
            return Ok(false);
        }
        proof {
            assert(self.data@.take(0) =~= Seq::empty());
        }
        for i in 0..self.data.len()
            invariant
                partition is None,
                first_error_of(self.data@) matches Some(e) ==> is_repeatable(e),
                first_error_of(self.data@.take(i as int)) is None,
        {
            proof {
                assert(self.data@.take(i + 1).drop_last() =~= self.data@.take(i as int));
                if first_error(self.data@[i as int]@) is Some {
                    lemma_first_error_of_prefix(self.data@, i + 1);
                }
            }
            match find_error(&self.data[i]) {
                Some(e) => {
                    return Err(e);
                },
                None => {},
            }
        }
        proof {
            assert(self.data@.take(self.data@.len() as int) =~= self.data@);
        }
        Ok(true)
    }

    /// Shows the node.
    pub fn fmt_as(&self, t: DisplayFormatType) -> (text: String)
        ensures
            text@ == if t is TreeRender {
                ""@
            } else {
                "MockExec"@
            },
    {
        match t {
            DisplayFormatType::TreeRender => "".to_owned(),
            _ => "MockExec".to_owned(),
        }
    }
}

/// The error that counts is the first: all batches before it are data.
pub proof fn the_first_error_counts<B>(batches: Seq<MockBatch<B>>, i: int)
    requires
        0 <= i <= batches.len(),
        forall|j: int| 0 <= j < i ==> #[trigger] batches[j] is Ok,
    ensures
        i < batches.len() ==> (batches[i] matches Err(e) ==> first_error(batches) == Some(e)),
        i == batches.len() ==> first_error(batches) is None,
    decreases batches.len(),
{
    if batches.len() > 0 {
        let front = batches.drop_last();
        assert forall|j: int| 0 <= j < i && j < front.len() implies #[trigger] front[j] is Ok by {
            assert(batches[j] is Ok);
        }
        if i < batches.len() {
            the_first_error_counts(front, i);
        } else {
            assert(batches[i - 1] is Ok);
            the_first_error_counts(front, i - 1);
        }
    }
}

/// Among several partitions the first error of the first one that has any counts.
pub proof fn the_first_failing_partition_counts<B>(data: Seq<Vec<MockBatch<B>>>, i: int)
    requires
        0 <= i <= data.len(),
        forall|j: int| 0 <= j < i ==> first_error((#[trigger] data[j])@) is None,
    ensures
        i < data.len() ==> (first_error(data[i]@) is Some ==> first_error_of(data)
            == first_error(data[i]@)),
        i == data.len() ==> first_error_of(data) is None,
    decreases data.len(),
{
    if data.len() > 0 {
        let front = data.drop_last();
        assert forall|j: int| 0 <= j < i && j < front.len() implies first_error(
            (#[trigger] front[j])@,
        ) is None by {
            assert(first_error(data[j]@) is None);
        }
        if i < data.len() {
            the_first_failing_partition_counts(front, i);
        } else {
            assert(first_error(data[i - 1]@) is None);
            the_first_failing_partition_counts(front, i - 1);
        }
    }
}

} // verus!
