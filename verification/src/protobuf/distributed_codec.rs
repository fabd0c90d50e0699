use crate::execution_plans::children_isolator_union::{ChildrenIsolatorUnionExec, Slot};
use crate::execution_plans::partition_isolator::{group_of, PartitionIsolatorExec};
use crate::stage::{
    parse_url, parsed_url, task_views, uuid_from_slice, DistributedTaskContext, ExecutionTask, Stage,
    StageView,
};
use crate::text::{decimal, push_usize, text_view};
use vstd::prelude::*;

verus! {

/// Why a message is not the node of a plan, or a node is not sent.
#[derive(Debug, PartialEq, Eq)]
pub enum ProtoError {
    MissingNode,
    MissingSchema(NetworkKind),
    MissingPartitioning(NetworkKind),
    EmptyStage,
    InvalidQueryId,
    InvalidUrl(String),
    PartitionIsolatorChildren(usize),
    BroadcastChildren(usize),
    UnexpectedPlan(String),
}

/// The contents of a [ProtoError].
#[verifier::ext_equal]
pub enum ProtoErrorView {
    MissingNode,
    MissingSchema(NetworkKind),
    MissingPartitioning(NetworkKind),
    EmptyStage,
    InvalidQueryId,
    InvalidUrl(Seq<char>),
    PartitionIsolatorChildren(usize),
    BroadcastChildren(usize),
    UnexpectedPlan(Seq<char>),
}

impl View for ProtoError {
    type V = ProtoErrorView;

    open spec fn view(&self) -> ProtoErrorView {
        match self {
            ProtoError::MissingNode => ProtoErrorView::MissingNode,
            ProtoError::MissingSchema(k) => ProtoErrorView::MissingSchema(*k),
            ProtoError::MissingPartitioning(k) => ProtoErrorView::MissingPartitioning(*k),
            ProtoError::EmptyStage => ProtoErrorView::EmptyStage,
            ProtoError::InvalidQueryId => ProtoErrorView::InvalidQueryId,
            ProtoError::InvalidUrl(u) => ProtoErrorView::InvalidUrl(u@),
            ProtoError::PartitionIsolatorChildren(n) => ProtoErrorView::PartitionIsolatorChildren(
                *n,
            ),
            ProtoError::BroadcastChildren(n) => ProtoErrorView::BroadcastChildren(*n),
            ProtoError::UnexpectedPlan(name) => ProtoErrorView::UnexpectedPlan(name@),
        }
    }
}

/// The ways in which data crosses from one stage to the next.
#[derive(Debug, Clone, Copy, PartialEq, Eq, Structural)]
pub enum NetworkKind {
    Shuffle,
    Coalesce,
    Broadcast,
}

/// The name of the node that reads data in the given way.
pub open spec fn network_name(kind: NetworkKind) -> Seq<char> {
    match kind {
        NetworkKind::Shuffle => "NetworkShuffleExec"@,
        NetworkKind::Coalesce => "NetworkCoalesceExec"@,
        NetworkKind::Broadcast => "NetworkBroadcastExec"@,
    }
}

impl NetworkKind {
    /// The name of the node that reads data in this way.
    pub fn name(&self) -> (name: &'static str)
        ensures
            name@ == network_name(*self),
    {
        match self {
            NetworkKind::Shuffle => "NetworkShuffleExec",
            NetworkKind::Coalesce => "NetworkCoalesceExec",
            NetworkKind::Broadcast => "NetworkBroadcastExec",
        }
    }
}

/// The text of an error.
pub open spec fn proto_error_text(error: ProtoErrorView) -> Seq<char> {
    match error {
        ProtoErrorView::MissingNode => "Expected DistributedExecNode in DistributedExecProto"@,
        ProtoErrorView::MissingSchema(k) => network_name(k) + " is missing schema"@,
        ProtoErrorView::MissingPartitioning(k) => network_name(k) + " is missing partitioning"@,
        ProtoErrorView::EmptyStage => "Empty StageProto"@,
        ProtoErrorView::InvalidQueryId => "Invalid query_id in StageProto"@,
        ProtoErrorView::InvalidUrl(u) => "Invalid URL: "@ + u,
        ProtoErrorView::PartitionIsolatorChildren(n) =>
            "PartitionIsolatorExec expects exactly one child, got "@ + decimal(n as nat),
        ProtoErrorView::BroadcastChildren(n) =>
            "BroadcastExec expects exactly one child, got "@ + decimal(n as nat),
        ProtoErrorView::UnexpectedPlan(name) => "Unexpected plan "@ + name,
    }
}

impl ProtoError {
    /// The text of the error.
    pub fn message(&self) -> (text: String)
        ensures
            text@ == proto_error_text(self@),
    {
        let mut text = String::new();
        match self {
            ProtoError::MissingNode => {
                text.push_str("Expected DistributedExecNode in DistributedExecProto");
            },
            ProtoError::MissingSchema(k) => {
                text.push_str(k.name());
                text.push_str(" is missing schema");
            },
            ProtoError::MissingPartitioning(k) => {
                text.push_str(k.name());
                text.push_str(" is missing partitioning");
            },
            ProtoError::EmptyStage => {
                text.push_str("Empty StageProto");
            },
            ProtoError::InvalidQueryId => {
                text.push_str("Invalid query_id in StageProto");
            },
            ProtoError::InvalidUrl(u) => {
                text.push_str("Invalid URL: ");
                text.push_str(u.as_str());
            },
            ProtoError::PartitionIsolatorChildren(n) => {
                text.push_str("PartitionIsolatorExec expects exactly one child, got ");
                push_usize(&mut text, *n);
            },
            ProtoError::BroadcastChildren(n) => {
                text.push_str("BroadcastExec expects exactly one child, got ");
                push_usize(&mut text, *n);
            },
            ProtoError::UnexpectedPlan(name) => {
                text.push_str("Unexpected plan ");
                text.push_str(name.as_str());
            },
        }
        proof {
            assert(text@ =~= proto_error_text(self@));
        }
        text
    }
}

/// Why a node could not be sent or received: an error of the query engine about its schema or its
/// partitioning, or one of this library about the rest.
#[derive(Debug, PartialEq, Eq)]
pub enum CodecError<E> {
    Engine(E),
    Proto(ProtoError),
}

/// The contents of a [CodecError].
#[verifier::ext_equal]
pub enum CodecErrorView<E> {
    Engine(E),
    Proto(ProtoErrorView),
}

impl<E> View for CodecError<E> {
    type V = CodecErrorView<E>;

    open spec fn view(&self) -> CodecErrorView<E> {
        match self {
            CodecError::Engine(e) => CodecErrorView::Engine(*e),
            CodecError::Proto(e) => CodecErrorView::Proto(e@),
        }
    }
}

/// A stage on the wire.
#[derive(Debug, PartialEq, Eq)]
pub struct StageProto {
    pub query_id: Vec<u8>,
    pub num: u64,
    pub tasks: Vec<ExecutionTaskProto>,
}

/// A task on the wire.
#[derive(Debug, PartialEq, Eq)]
pub struct ExecutionTaskProto {
    /// The worker that runs the task, once one is chosen.
    pub url_str: Option<String>,
}

impl View for ExecutionTaskProto {
    type V = Option<Seq<char>>;

    open spec fn view(&self) -> Option<Seq<char>> {
        text_view(self.url_str)
    }
}

/// The workers of some tasks on the wire.
pub open spec fn task_proto_views(tasks: Seq<ExecutionTaskProto>) -> Seq<Option<Seq<char>>> {
    Seq::new(tasks.len(), |i: int| tasks[i]@)
}

/// The contents of a [StageProto].
#[verifier::ext_equal]
pub struct StageProtoView {
    pub query_id: Seq<u8>,
    pub num: u64,
    pub tasks: Seq<Option<Seq<char>>>,
}

impl View for StageProto {
    type V = StageProtoView;

    open spec fn view(&self) -> StageProtoView {
        StageProtoView {
            query_id: self.query_id@,
            num: self.num,
            tasks: task_proto_views(self.tasks@),
        }
    }
}

/// Puts the tasks of a stage on the wire: the workers are sent as they are.
pub fn encode_tasks(tasks: &Vec<ExecutionTask>) -> (protos: Vec<ExecutionTaskProto>)
    ensures
        task_proto_views(protos@) == task_views(tasks@),
{
    let mut protos: Vec<ExecutionTaskProto> = Vec::new();
    for i in 0..tasks.len()
        invariant
            protos@.len() == i,
            forall|j: int| 0 <= j < i ==> (#[trigger] protos@[j])@ == tasks@[j]@,
    {
        let url_str = match &tasks[i].url {
            Some(u) => Some(u.clone()),
            None => None,
        };
        protos.push(ExecutionTaskProto { url_str });
    }
    proof {
        assert(task_proto_views(protos@) =~= task_views(tasks@));
    }
    protos
}

/// The tasks that a list on the wire stands for: each worker in normal form. The first that is no
/// URL is an error.
pub open spec fn decoded_tasks(tasks: Seq<Option<Seq<char>>>) -> Result<
    Seq<Option<Seq<char>>>,
    ProtoErrorView,
>
    decreases tasks.len(),
{
    if tasks.len() == 0 {
        Ok(Seq::empty())
    } else {
        match decoded_tasks(tasks.drop_last()) {
            Err(e) => Err(e),
            Ok(before) => match tasks.last() {
                None => Ok(before.push(None)),
                Some(u) => match parsed_url(u) {
                    Some(url) => Ok(before.push(Some(url))),
                    None => Err(ProtoErrorView::InvalidUrl(u)),
                },
            },
        }
    }
}

pub(crate) proof fn lemma_tasks_prefix(tasks: Seq<Option<Seq<char>>>, n: int)
    requires
        0 <= n <= tasks.len(),
        decoded_tasks(tasks.take(n)) is Err,
    ensures
        decoded_tasks(tasks) == decoded_tasks(tasks.take(n)),
    decreases tasks.len() - n,
{
    if n == tasks.len() {
        assert(tasks.take(n) =~= tasks);
    } else {
        assert(tasks.take(n + 1).drop_last() =~= tasks.take(n));
        lemma_tasks_prefix(tasks, n + 1);
    }
}

/// Reads the tasks of a stage from the wire.
pub fn decode_tasks(tasks: Vec<ExecutionTaskProto>) -> (result: Result<
    Vec<ExecutionTask>,
    ProtoError,
>)
    ensures
        match result {
            Ok(r) => decoded_tasks(task_proto_views(tasks@)) == Ok::<_, ProtoErrorView>(
                task_views(r@),
            ),
            Err(e) => decoded_tasks(task_proto_views(tasks@)) == Err::<Seq<Option<Seq<char>>>, _>(
                e@,
            ),
        },
{
    let ghost views = task_proto_views(tasks@);
    let mut decoded: Vec<ExecutionTask> = Vec::new();
    proof {
        assert(task_views(decoded@) =~= Seq::empty());
        assert(views.take(0) =~= Seq::empty());
    }
    for i in 0..tasks.len()
        invariant
            views == task_proto_views(tasks@),
            decoded_tasks(views.take(i as int)) == Ok::<_, ProtoErrorView>(task_views(decoded@)),
    {
        proof {
            assert(views.take(i + 1).drop_last() =~= views.take(i as int));
            assert(views.take(i + 1).last() == tasks@[i as int]@);
        }
        let ghost before = decoded@;
        match &tasks[i].url_str {
            None => {
                decoded.push(ExecutionTask { url: None });
            },
            Some(u) => match parse_url(u.as_str()) {
                Some(url) => {
                    decoded.push(ExecutionTask { url: Some(url) });
                },
                None => {
                    proof {
                        lemma_tasks_prefix(views, i + 1);
                    }
                    return Err(ProtoError::InvalidUrl(u.clone()));
                },
            },
        }
        proof {
            assert(task_views(decoded@) =~= task_views(before).push(decoded@.last()@));
        }
    }
    proof {
        assert(views.take(tasks@.len() as int) =~= views);
    }
    Ok(decoded)
}

/// A stage on its way to the wire. The plan stays behind: it travels as an input of the node.
pub open spec fn encoded_stage<P>(stage: StageView<P>) -> StageProtoView {
    StageProtoView { query_id: stage.query_id, num: stage.num as u64, tasks: stage.tasks }
}

/// Puts a stage on the wire.
pub fn encode_stage_proto<P>(stage: &Stage<P>) -> (proto: StageProto)
    ensures
        proto@ == encoded_stage(stage@),
{
    StageProto {
        query_id: stage.query_id.to_vec(),
        num: stage.num as u64,
        tasks: encode_tasks(&stage.tasks),
    }
}

/// The stage that a message stands for, with the plan that came beside it.
pub open spec fn decoded_stage<P>(proto: Option<StageProtoView>, plan: Option<P>) -> Result<
    StageView<P>,
    ProtoErrorView,
> {
    match proto {
        None => Err(ProtoErrorView::EmptyStage),
        Some(proto) => if proto.query_id.len() != 16 {
            Err(ProtoErrorView::InvalidQueryId)
        } else {
            match decoded_tasks(proto.tasks) {
                Err(e) => Err(e),
                Ok(tasks) => Ok(
                    StageView { query_id: proto.query_id, num: proto.num as usize, plan, tasks },
                ),
            }
        },
    }
}

/// What is in a stage that may be absent.
pub open spec fn stage_proto_view(proto: Option<StageProto>) -> Option<StageProtoView> {
    match proto {
        Some(p) => Some(p@),
        None => None,
    }
}

/// Reads a stage from the wire.
pub fn parse_stage_proto<P>(proto: Option<StageProto>, plan: Option<P>) -> (result: Result<
    Stage<P>,
    ProtoError,
>)
    ensures
        match result {
            Ok(stage) => decoded_stage(stage_proto_view(proto), plan) == Ok::<_, ProtoErrorView>(
                stage@,
            ),
            Err(e) => decoded_stage(stage_proto_view(proto), plan) == Err::<StageView<P>, _>(e@),
        },
{
    let proto = match proto {
        Some(proto) => proto,
        None => {
            return Err(ProtoError::EmptyStage);
        },
    };
    let query_id = match uuid_from_slice(&proto.query_id) {
        Some(id) => id,
        None => {
            return Err(ProtoError::InvalidQueryId);
        },
    };
    let num: usize = proto.num as usize;
    match decode_tasks(proto.tasks) {
        Ok(tasks) => Ok(Stage { query_id, num, plan, tasks }),
        Err(e) => Err(e),
    }
}

/// A node that reads from another stage, on the wire. The schema and the partitioning are messages
/// of the query engine.
#[derive(Debug, PartialEq, Eq)]
pub struct NetworkExecProto<SchemaProto, PartitioningProto> {
    pub schema: Option<SchemaProto>,
    pub partitioning: Option<PartitioningProto>,
    pub input_stage: Option<StageProto>,
}

pub type NetworkShuffleExecProto<S, P> = NetworkExecProto<S, P>;

pub type NetworkCoalesceExecProto<S, P> = NetworkExecProto<S, P>;

pub type NetworkBroadcastExecProto<S, P> = NetworkExecProto<S, P>;

/// A [PartitionIsolatorExec] on the wire.
#[derive(Debug, Clone, Copy, PartialEq, Eq, Structural)]
pub struct PartitionIsolatorExecProto {
    pub n_tasks: u64,
}

/// A [BroadcastExec] on the wire.
#[derive(Debug, Clone, Copy, PartialEq, Eq, Structural)]
pub struct BroadcastExecProto {
    pub consumer_task_count: u64,
}

/// A piece of a child of a union, on the wire.
#[derive(Debug, Clone, Copy, PartialEq, Eq, Structural)]
pub struct ChildIdxWithTaskContextProto {
    pub child_idx: u64,
    pub task_idx: u64,
    pub task_count: u64,
}

/// The pieces that one task of a union runs, on the wire.
#[derive(Debug, PartialEq, Eq)]
pub struct TaskIdxMapEntryProto {
    pub child_ctx: Vec<ChildIdxWithTaskContextProto>,
}

/// A [ChildrenIsolatorUnionExec] on the wire.
#[derive(Debug, PartialEq, Eq)]
pub struct ChildrenIsolatorUnionExecProto {
    pub partition_count: u64,
    pub task_idx_map: Vec<TaskIdxMapEntryProto>,
}

/// One of the nodes that this library adds to plans, on the wire.
#[derive(Debug, PartialEq, Eq)]
pub enum DistributedExecNode<SchemaProto, PartitioningProto> {
    NetworkHashShuffle(NetworkShuffleExecProto<SchemaProto, PartitioningProto>),
    NetworkCoalesceTasks(NetworkCoalesceExecProto<SchemaProto, PartitioningProto>),
    PartitionIsolator(PartitionIsolatorExecProto),
    ChildrenIsolatorUnion(ChildrenIsolatorUnionExecProto),
    NetworkBroadcast(NetworkBroadcastExecProto<SchemaProto, PartitioningProto>),
    Broadcast(BroadcastExecProto),
}

/// What is sent for a node.
#[derive(Debug, PartialEq, Eq)]
pub struct DistributedExecProto<SchemaProto, PartitioningProto> {
    pub node: Option<DistributedExecNode<SchemaProto, PartitioningProto>>,
}

/// A node that reads from another stage.
#[derive(Debug)]
pub struct NetworkExec<Schema, Partitioning, P> {
    pub kind: NetworkKind,
    pub schema: Schema,
    pub partitioning: Partitioning,
    pub input_stage: Stage<P>,
    /// How many connections to workers the node will make: one for each task that it reads from.
    pub worker_connections: usize,
}

impl<Schema, Partitioning, P> NetworkExec<Schema, Partitioning, P> {
    /// A node that reads from a stage.
    pub fn new(
        kind: NetworkKind,
        partitioning: Partitioning,
        schema: Schema,
        input_stage: Stage<P>,
    ) -> (exec: Self)
        ensures
            exec.kind == kind,
            exec.schema == schema,
            exec.partitioning == partitioning,
            exec.input_stage == input_stage,
            exec.worker_connections == input_stage.tasks@.len(),
    {
        let worker_connections: usize = input_stage.tasks.len();
        NetworkExec { kind, schema, partitioning, input_stage, worker_connections }
    }
}

/// A node that hands all of its input to every consumer.
#[derive(Debug, Clone, Copy, PartialEq, Eq, Structural)]
pub struct BroadcastExec {
    pub input_partitions: usize,
    pub consumer_task_count: usize,
}

/// A node of a plan, as far as it can be sent.
#[derive(Debug)]
pub enum DistributedNode<Schema, Partitioning, P> {
    Network(NetworkExec<Schema, Partitioning, P>),
    PartitionIsolator(PartitionIsolatorExec),
    ChildrenIsolatorUnion(ChildrenIsolatorUnionExec),
    Broadcast(BroadcastExec),
    /// A node that is not of this library.
    Other { name: String },
}

/// What came beside a node: one of the plans below it.
#[derive(Debug)]
pub struct InputPlan<P> {
    pub plan: P,
    pub partitions: usize,
}

/// The partitions of some plans.
pub open spec fn partitions_of<P>(inputs: Seq<InputPlan<P>>) -> Seq<usize> {
    Seq::new(inputs.len(), |i: int| inputs[i].partitions)
}

/// The pieces that the tasks of a union run, on the wire.
pub open spec fn entry_views(entries: Seq<TaskIdxMapEntryProto>) -> Seq<
    Seq<ChildIdxWithTaskContextProto>,
> {
    Seq::new(entries.len(), |t: int| entries[t].child_ctx@)
}

/// A piece of a child of a union, on its way to the wire.
pub open spec fn encoded_slot(slot: Slot) -> ChildIdxWithTaskContextProto {
    ChildIdxWithTaskContextProto {
        child_idx: slot.0 as u64,
        task_idx: slot.1.task_index as u64,
        task_count: slot.1.task_count as u64,
    }
}

/// A piece of a child of a union, as it comes from the wire.
pub open spec fn decoded_slot(proto: ChildIdxWithTaskContextProto) -> Slot {
    (
        proto.child_idx as usize,
        DistributedTaskContext {
            task_index: proto.task_idx as usize,
            task_count: proto.task_count as usize,
        },
    )
}

/// The pieces that tasks run, on their way to the wire.
pub open spec fn encoded_runs(runs: Seq<Seq<Slot>>) -> Seq<Seq<ChildIdxWithTaskContextProto>> {
    Seq::new(
        runs.len(),
        |t: int| Seq::new(runs[t].len(), |i: int| encoded_slot(runs[t][i])),
    )
}

/// The pieces that tasks run, as they come from the wire.
pub open spec fn decoded_runs(entries: Seq<Seq<ChildIdxWithTaskContextProto>>) -> Seq<Seq<Slot>> {
    Seq::new(
        entries.len(),
        |t: int| Seq::new(entries[t].len(), |i: int| decoded_slot(entries[t][i])),
    )
}

fn encode_runs(runs: &Vec<Vec<Slot>>) -> (entries: Vec<TaskIdxMapEntryProto>)
    ensures
        entry_views(entries@) == encoded_runs(Seq::new(runs@.len(), |t: int| runs@[t]@)),
{
    let mut entries: Vec<TaskIdxMapEntryProto> = Vec::new();
    for t in 0..runs.len()
        invariant
            entries@.len() == t,
            forall|u: int|
                0 <= u < t ==> (#[trigger] entries@[u]).child_ctx@ == Seq::new(
                    runs@[u]@.len(),
                    |i: int| encoded_slot(runs@[u]@[i]),
                ),
    {
        let run = &runs[t];
        let mut child_ctx: Vec<ChildIdxWithTaskContextProto> = Vec::new();
        for i in 0..run.len()
            invariant
                child_ctx@.len() == i,
                forall|j: int| 0 <= j < i ==> child_ctx@[j] == encoded_slot(#[trigger] run@[j]),
        {
            let (child_idx, task_ctx) = run[i];
            child_ctx.push(
                ChildIdxWithTaskContextProto {
                    child_idx: child_idx as u64,
                    task_idx: task_ctx.task_index as u64,
                    task_count: task_ctx.task_count as u64,
                },
            );
        }
        proof {
            assert(child_ctx@ =~= Seq::new(
                runs@[t as int]@.len(),
                |i: int| encoded_slot(runs@[t as int]@[i]),
            ));
        }
        entries.push(TaskIdxMapEntryProto { child_ctx });
    }
    proof {
        assert(entry_views(entries@) =~= encoded_runs(Seq::new(runs@.len(), |t: int| runs@[t]@)));
    }
    entries
}

fn decode_runs(entries: &Vec<TaskIdxMapEntryProto>) -> (runs: Vec<Vec<Slot>>)
    ensures
        Seq::new(runs@.len(), |t: int| runs@[t]@) == decoded_runs(entry_views(entries@)),
{
    let mut runs: Vec<Vec<Slot>> = Vec::new();
    for t in 0..entries.len()
        invariant
            runs@.len() == t,
            forall|u: int|
                0 <= u < t ==> (#[trigger] runs@[u])@ == Seq::new(
                    entries@[u].child_ctx@.len(),
                    |i: int| decoded_slot(entries@[u].child_ctx@[i]),
                ),
    {
        let child_ctx = &entries[t].child_ctx;
        let mut run: Vec<Slot> = Vec::new();
        for i in 0..child_ctx.len()
            invariant
                run@.len() == i,
                forall|j: int| 0 <= j < i ==> run@[j] == decoded_slot(#[trigger] child_ctx@[j]),
        {
            let proto = child_ctx[i];
            run.push(
                (
                    proto.child_idx as usize,
                    DistributedTaskContext {
                        task_index: proto.task_idx as usize,
                        task_count: proto.task_count as usize,
                    },
                ),
            );
        }
        proof {
            assert(run@ =~= Seq::new(
                entries@[t as int].child_ctx@.len(),
                |i: int| decoded_slot(entries@[t as int].child_ctx@[i]),
            ));
        }
        runs.push(run);
    }
    proof {
        assert(Seq::new(runs@.len(), |t: int| runs@[t]@) =~= decoded_runs(entry_views(entries@)));
    }
    runs
}

/// Whether `result` is what a message for a node that reads from another stage is read as, where the
/// query engine reads the schema with `parse_schema` and then the partitioning with
/// `parse_partitioning`. The first part that is missing or wrong is the error.
pub open spec fn network_received<SchemaProto, PartitioningProto, Schema, Partitioning, P, E, F, G>(
    parse_schema: F,
    parse_partitioning: G,
    kind: NetworkKind,
    proto: NetworkExecProto<SchemaProto, PartitioningProto>,
    plan: Option<P>,
    result: Result<NetworkExec<Schema, Partitioning, P>, CodecError<E>>,
) -> bool where
    F: Fn(&SchemaProto) -> Result<Schema, E>,
    G: Fn(&Option<PartitioningProto>, &Schema) -> Result<Option<Partitioning>, E>,
 {
    match proto.schema {
        None => refused(result, CodecErrorView::Proto(ProtoErrorView::MissingSchema(kind))),
        Some(message) => exists|schema: Result<Schema, E>| #[trigger]
            call_ensures(parse_schema, (&message,), schema) && match schema {
                Err(e) => refused(result, CodecErrorView::Engine(e)),
                Ok(schema) => exists|partitioning: Result<Option<Partitioning>, E>| #[trigger]
                    call_ensures(
                        parse_partitioning,
                        (&proto.partitioning, &schema),
                        partitioning,
                    ) && match partitioning {
                        Err(e) => refused(result, CodecErrorView::Engine(e)),
                        Ok(None) => refused(
                            result,
                            CodecErrorView::Proto(ProtoErrorView::MissingPartitioning(kind)),
                        ),
                        Ok(Some(partitioning)) => match decoded_stage(
                            stage_proto_view(proto.input_stage),
                            plan,
                        ) {
                            Err(e) => refused(result, CodecErrorView::Proto(e)),
                            Ok(stage) => result matches Ok(exec) && is_network_exec(
                                exec,
                                kind,
                                schema,
                                partitioning,
                                stage,
                            ),
                        },
                    },
            },
    }
}

/// Whether a result is the given error.
pub open spec fn refused<T, E>(result: Result<T, CodecError<E>>, error: CodecErrorView<E>) -> bool {
    result matches Err(e) && e@ == error
}

/// Whether a node has the given parts.
pub open spec fn is_network_exec<Schema, Partitioning, P>(
    exec: NetworkExec<Schema, Partitioning, P>,
    kind: NetworkKind,
    schema: Schema,
    partitioning: Partitioning,
    stage: StageView<P>,
) -> bool {
    &&& exec.kind == kind
    &&& exec.schema == schema
    &&& exec.partitioning == partitioning
    &&& exec.input_stage@ == stage
    &&& exec.worker_connections == stage.tasks.len()
}

fn decode_network<SchemaProto, PartitioningProto, Schema, Partitioning, P, E, F, G>(
    parse_schema: &F,
    parse_partitioning: &G,
    kind: NetworkKind,
    proto: NetworkExecProto<SchemaProto, PartitioningProto>,
    plan: Option<P>,
) -> (result: Result<NetworkExec<Schema, Partitioning, P>, CodecError<E>>) where
    F: Fn(&SchemaProto) -> Result<Schema, E>,
    G: Fn(&Option<PartitioningProto>, &Schema) -> Result<Option<Partitioning>, E>,

    requires
        forall|m: &SchemaProto| call_requires(*parse_schema, (m,)),
        forall|m: &Option<PartitioningProto>, s: &Schema|
            call_requires(*parse_partitioning, (m, s)),
    ensures
        network_received(*parse_schema, *parse_partitioning, kind, proto, plan, result),
{
    let schema = match &proto.schema {
        None => {
            return Err(CodecError::Proto(ProtoError::MissingSchema(kind)));
        },
        Some(message) => match parse_schema(message) {
            Err(e) => {
                return Err(CodecError::Engine(e));
            },
            Ok(schema) => schema,
        },
    };
    let partitioning = match parse_partitioning(&proto.partitioning, &schema) {
        Err(e) => {
            return Err(CodecError::Engine(e));
        },
        Ok(None) => {
            return Err(CodecError::Proto(ProtoError::MissingPartitioning(kind)));
        },
        Ok(Some(partitioning)) => partitioning,
    };
    match parse_stage_proto(proto.input_stage, plan) {
        Err(e) => Err(CodecError::Proto(e)),
        Ok(stage) => Ok(NetworkExec::new(kind, partitioning, schema, stage)),
    }
}

/// The plan that came first beside a node.
pub open spec fn first_plan<P>(inputs: Seq<InputPlan<P>>) -> Option<P> {
    if inputs.len() == 0 {
        None
    } else {
        Some(inputs[0].plan)
    }
}

/// Whether a result for a node that reads from another stage, or the error in place of it, is what
/// is returned for the whole message.
pub open spec fn network_result<Schema, Partitioning, P, E>(
    network: Result<NetworkExec<Schema, Partitioning, P>, CodecError<E>>,
    result: Result<DistributedNode<Schema, Partitioning, P>, CodecError<E>>,
) -> bool {
    match network {
        Ok(exec) => result == Ok::<_, CodecError<E>>(DistributedNode::Network(exec)),
        Err(e) => result == Err::<DistributedNode<Schema, Partitioning, P>, _>(e),
    }
}

/// Whether `result` is what a message for a node is read as, given the plans that came beside it. The
/// query engine unites them with `unite` where the node is a union.
pub open spec fn node_received<SchemaProto, PartitioningProto, Schema, Partitioning, P, E, F, G, U>(
    parse_schema: F,
    parse_partitioning: G,
    unite: U,
    proto: DistributedExecProto<SchemaProto, PartitioningProto>,
    inputs: Vec<InputPlan<P>>,
    result: Result<DistributedNode<Schema, Partitioning, P>, CodecError<E>>,
) -> bool where
    F: Fn(&SchemaProto) -> Result<Schema, E>,
    G: Fn(&Option<PartitioningProto>, &Schema) -> Result<Option<Partitioning>, E>,
    U: Fn(&Vec<InputPlan<P>>) -> Result<(), E>,
 {
    match proto.node {
        None => refused(result, CodecErrorView::Proto(ProtoErrorView::MissingNode)),
        Some(DistributedExecNode::NetworkHashShuffle(network)) => exists|
            r: Result<NetworkExec<Schema, Partitioning, P>, CodecError<E>>,
        | #[trigger]
            network_result(r, result) && network_received(
                parse_schema,
                parse_partitioning,
                NetworkKind::Shuffle,
                network,
                first_plan(inputs@),
                r,
            ),
        Some(DistributedExecNode::NetworkCoalesceTasks(network)) => exists|
            r: Result<NetworkExec<Schema, Partitioning, P>, CodecError<E>>,
        | #[trigger]
            network_result(r, result) && network_received(
                parse_schema,
                parse_partitioning,
                NetworkKind::Coalesce,
                network,
                first_plan(inputs@),
                r,
            ),
        Some(DistributedExecNode::NetworkBroadcast(network)) => exists|
            r: Result<NetworkExec<Schema, Partitioning, P>, CodecError<E>>,
        | #[trigger]
            network_result(r, result) && network_received(
                parse_schema,
                parse_partitioning,
                NetworkKind::Broadcast,
                network,
                first_plan(inputs@),
                r,
            ),
        Some(DistributedExecNode::PartitionIsolator(isolator)) => if inputs@.len() != 1 {
            refused(
                result,
                CodecErrorView::Proto(
                    ProtoErrorView::PartitionIsolatorChildren(inputs@.len() as usize),
                ),
            )
        } else {
            result matches Ok(DistributedNode::PartitionIsolator(exec)) && {
                &&& exec.input_partitions == inputs@[0].partitions
                &&& exec.n_tasks == isolator.n_tasks as usize
                &&& exec.partition_count == group_of(
                    exec.input_partitions as nat,
                    exec.n_tasks as nat,
                    0,
                ).len()
            }
        },
        Some(DistributedExecNode::Broadcast(broadcast)) => if inputs@.len() != 1 {
            refused(
                result,
                CodecErrorView::Proto(ProtoErrorView::BroadcastChildren(inputs@.len() as usize)),
            )
        } else {
            result matches Ok(DistributedNode::Broadcast(exec)) && {
                &&& exec.input_partitions == inputs@[0].partitions
                &&& exec.consumer_task_count == broadcast.consumer_task_count as usize
            }
        },
        Some(DistributedExecNode::ChildrenIsolatorUnion(union)) => exists|united: Result<(), E>|
            #[trigger]
            call_ensures(unite, (&inputs,), united) && match united {
                Err(e) => refused(result, CodecErrorView::Engine(e)),
                Ok(()) => result matches Ok(DistributedNode::ChildrenIsolatorUnion(exec)) && {
                    &&& exec.child_partitions@ == partitions_of(inputs@)
                    &&& exec.partition_count == union.partition_count as usize
                    &&& exec.runs() == decoded_runs(entry_views(union.task_idx_map@))
                },
            },
    }
}

/// Whether `result` is what is sent for a node that reads from another stage, where the query engine
/// writes the schema with `write_schema` and then the partitioning with `write_partitioning`. The
/// first error of the two is the error.
pub open spec fn network_sent<SchemaProto, PartitioningProto, Schema, Partitioning, P, E, F, G>(
    write_schema: F,
    write_partitioning: G,
    exec: NetworkExec<Schema, Partitioning, P>,
    result: Result<NetworkExecProto<SchemaProto, PartitioningProto>, CodecError<E>>,
) -> bool where
    F: Fn(&Schema) -> Result<SchemaProto, E>,
    G: Fn(&Partitioning) -> Result<PartitioningProto, E>,
 {
    exists|schema: Result<SchemaProto, E>| #[trigger]
        call_ensures(write_schema, (&exec.schema,), schema) && match schema {
            Err(e) => refused(result, CodecErrorView::Engine(e)),
            Ok(schema) => exists|partitioning: Result<PartitioningProto, E>| #[trigger]
                call_ensures(write_partitioning, (&exec.partitioning,), partitioning)
                    && match partitioning {
                    Err(e) => refused(result, CodecErrorView::Engine(e)),
                    Ok(partitioning) => result matches Ok(proto) && {
                        &&& proto.schema == Some(schema)
                        &&& proto.partitioning == Some(partitioning)
                        &&& stage_proto_view(proto.input_stage) == Some(
                            encoded_stage(exec.input_stage@),
                        )
                    },
                },
        }
}

fn encode_network<SchemaProto, PartitioningProto, Schema, Partitioning, P, E, F, G>(
    write_schema: &F,
    write_partitioning: &G,
    exec: &NetworkExec<Schema, Partitioning, P>,
) -> (result: Result<NetworkExecProto<SchemaProto, PartitioningProto>, CodecError<E>>) where
    F: Fn(&Schema) -> Result<SchemaProto, E>,
    G: Fn(&Partitioning) -> Result<PartitioningProto, E>,

    requires
        forall|s: &Schema| call_requires(*write_schema, (s,)),
        forall|p: &Partitioning| call_requires(*write_partitioning, (p,)),
    ensures
        network_sent(*write_schema, *write_partitioning, *exec, result),
{
    let schema = match write_schema(&exec.schema) {
        Err(e) => {
            return Err(CodecError::Engine(e));
        },
        Ok(schema) => schema,
    };
    let partitioning = match write_partitioning(&exec.partitioning) {
        Err(e) => {
            return Err(CodecError::Engine(e));
        },
        Ok(partitioning) => partitioning,
    };
    Ok(
        NetworkExecProto {
            schema: Some(schema),
            partitioning: Some(partitioning),
            input_stage: Some(encode_stage_proto(&exec.input_stage)),
        },
    )
}

/// The message for a node that reads from another stage.
pub open spec fn network_message<SchemaProto, PartitioningProto>(
    kind: NetworkKind,
    proto: NetworkExecProto<SchemaProto, PartitioningProto>,
) -> DistributedExecProto<SchemaProto, PartitioningProto> {
    DistributedExecProto {
        node: Some(
            match kind {
                NetworkKind::Shuffle => DistributedExecNode::NetworkHashShuffle(proto),
                NetworkKind::Coalesce => DistributedExecNode::NetworkCoalesceTasks(proto),
                NetworkKind::Broadcast => DistributedExecNode::NetworkBroadcast(proto),
            },
        ),
    }
}

/// Whether what is sent for a node that reads from another stage, or the error in place of it, is
/// what is returned for the node.
pub open spec fn message_result<SchemaProto, PartitioningProto, E>(
    kind: NetworkKind,
    network: Result<NetworkExecProto<SchemaProto, PartitioningProto>, CodecError<E>>,
    result: Result<DistributedExecProto<SchemaProto, PartitioningProto>, CodecError<E>>,
) -> bool {
    match network {
        Ok(proto) => result == Ok::<_, CodecError<E>>(network_message(kind, proto)),
        Err(e) => result == Err::<DistributedExecProto<SchemaProto, PartitioningProto>, _>(e),
    }
}

/// Whether `result` is what is sent for a node.
pub open spec fn node_sent<SchemaProto, PartitioningProto, Schema, Partitioning, P, E, F, G>(
    write_schema: F,
    write_partitioning: G,
    node: DistributedNode<Schema, Partitioning, P>,
    result: Result<DistributedExecProto<SchemaProto, PartitioningProto>, CodecError<E>>,
) -> bool where
    F: Fn(&Schema) -> Result<SchemaProto, E>,
    G: Fn(&Partitioning) -> Result<PartitioningProto, E>,
 {
    match node {
        DistributedNode::Network(exec) => exists|
            r: Result<NetworkExecProto<SchemaProto, PartitioningProto>, CodecError<E>>,
        | #[trigger]
            message_result(exec.kind, r, result) && network_sent(
                write_schema,
                write_partitioning,
                exec,
                r,
            ),
        DistributedNode::PartitionIsolator(exec) => {
            result matches Ok(
                DistributedExecProto { node: Some(DistributedExecNode::PartitionIsolator(proto)) },
            ) && proto.n_tasks == exec.n_tasks as u64
        },
        DistributedNode::Broadcast(exec) => {
            result matches Ok(
                DistributedExecProto { node: Some(DistributedExecNode::Broadcast(proto)) },
            ) && proto.consumer_task_count == exec.consumer_task_count as u64
        },
        DistributedNode::ChildrenIsolatorUnion(exec) => {
            result matches Ok(
                DistributedExecProto { node: Some(DistributedExecNode::ChildrenIsolatorUnion(proto)) },
            ) && {
                &&& proto.partition_count == exec.partition_count as u64
                &&& entry_views(proto.task_idx_map@) == encoded_runs(exec.runs())
            }
        },
        DistributedNode::Other { name } => refused(
            result,
            CodecErrorView::Proto(ProtoErrorView::UnexpectedPlan(name@)),
        ),
    }
}

/// Sends the nodes that this library adds to plans, and receives them.
#[derive(Debug, Clone, Copy, PartialEq, Eq, Structural)]
pub struct DistributedCodec;

impl DistributedCodec {
    /// Reads a node from its message and the plans that came beside it. The query engine reads the
    /// schema and the partitioning, and unites the plans.
    pub fn try_decode<SchemaProto, PartitioningProto, Schema, Partitioning, P, E, F, G, U>(
        &self,
        proto: DistributedExecProto<SchemaProto, PartitioningProto>,
        inputs: Vec<InputPlan<P>>,
        parse_schema: F,
        parse_partitioning: G,
        unite: U,
    ) -> (result: Result<DistributedNode<Schema, Partitioning, P>, CodecError<E>>) where
        F: Fn(&SchemaProto) -> Result<Schema, E>,
        G: Fn(&Option<PartitioningProto>, &Schema) -> Result<Option<Partitioning>, E>,
        U: Fn(&Vec<InputPlan<P>>) -> Result<(), E>,

        requires
            forall|m: &SchemaProto| call_requires(parse_schema, (m,)),
            forall|m: &Option<PartitioningProto>, s: &Schema|
                call_requires(parse_partitioning, (m, s)),
            call_requires(unite, (&inputs,)),
            proto.node matches Some(DistributedExecNode::PartitionIsolator(isolator)) ==> (
            inputs@.len() == 1 ==> isolator.n_tasks as usize > 0),
        ensures
            node_received(parse_schema, parse_partitioning, unite, proto, inputs, result),
    {
        let node = match proto.node {
            Some(node) => node,
            None => {
                return Err(CodecError::Proto(ProtoError::MissingNode));
            },
        };
        let n_inputs: usize = inputs.len();
        match node {
            DistributedExecNode::NetworkHashShuffle(network) => {
                let plan = take_first(inputs);
                let r = decode_network(
                    &parse_schema,
                    &parse_partitioning,
                    NetworkKind::Shuffle,
                    network,
                    plan,
                );
                let result = match r {
                    Ok(exec) => Ok(DistributedNode::Network(exec)),
                    Err(e) => Err(e),
                };
                proof {
                    assert(network_result(r, result));
                }
                result
            },
            DistributedExecNode::NetworkCoalesceTasks(network) => {
                let plan = take_first(inputs);
                let r = decode_network(
                    &parse_schema,
                    &parse_partitioning,
                    NetworkKind::Coalesce,
                    network,
                    plan,
                );
                let result = match r {
                    Ok(exec) => Ok(DistributedNode::Network(exec)),
                    Err(e) => Err(e),
                };
                proof {
                    assert(network_result(r, result));
                }
                result
            },
            DistributedExecNode::NetworkBroadcast(network) => {
                let plan = take_first(inputs);
                let r = decode_network(
                    &parse_schema,
                    &parse_partitioning,
                    NetworkKind::Broadcast,
                    network,
                    plan,
                );
                let result = match r {
                    Ok(exec) => Ok(DistributedNode::Network(exec)),
                    Err(e) => Err(e),
                };
                proof {
                    assert(network_result(r, result));
                }
                result
            },
            DistributedExecNode::PartitionIsolator(isolator) => {
                if n_inputs != 1 {
                    return Err(CodecError::Proto(ProtoError::PartitionIsolatorChildren(n_inputs)));
                }
                Ok(
                    DistributedNode::PartitionIsolator(
                        PartitionIsolatorExec::new(
                            inputs[0].partitions,
                            isolator.n_tasks as usize,
                        ),
                    ),
                )
            },
            DistributedExecNode::Broadcast(broadcast) => {
                if n_inputs != 1 {
                    return Err(CodecError::Proto(ProtoError::BroadcastChildren(n_inputs)));
                }
                Ok(
                    DistributedNode::Broadcast(
                        BroadcastExec {
                            input_partitions: inputs[0].partitions,
                            consumer_task_count: broadcast.consumer_task_count as usize,
                        },
                    ),
                )
            },
            DistributedExecNode::ChildrenIsolatorUnion(union) => {
                match unite(&inputs) {
                    Err(e) => {
                        return Err(CodecError::Engine(e));
                    },
                    Ok(()) => {},
                }
                let mut child_partitions: Vec<usize> = Vec::new();
                for i in 0..inputs.len()
                    invariant
                        child_partitions@ =~= partitions_of(inputs@).take(i as int),
                {
                    child_partitions.push(inputs[i].partitions);
                }
                proof {
                    assert(child_partitions@ =~= partitions_of(inputs@));
                }
                let exec = ChildrenIsolatorUnionExec {
                    child_partitions,
                    partition_count: union.partition_count as usize,
                    task_idx_map: decode_runs(&union.task_idx_map),
                };
                Ok(DistributedNode::ChildrenIsolatorUnion(exec))
            },
        }
    }

    /// Makes the message for a node. The query engine writes the schema and the partitioning.
    pub fn try_encode<SchemaProto, PartitioningProto, Schema, Partitioning, P, E, F, G>(
        &self,
        node: &DistributedNode<Schema, Partitioning, P>,
        write_schema: F,
        write_partitioning: G,
    ) -> (result: Result<
        DistributedExecProto<SchemaProto, PartitioningProto>,
        CodecError<E>,
    >) where
        F: Fn(&Schema) -> Result<SchemaProto, E>,
        G: Fn(&Partitioning) -> Result<PartitioningProto, E>,

        requires
            forall|s: &Schema| call_requires(write_schema, (s,)),
            forall|p: &Partitioning| call_requires(write_partitioning, (p,)),
        ensures
            node_sent(write_schema, write_partitioning, *node, result),
    {
        let message = match node {
            DistributedNode::Network(exec) => {
                let r = encode_network(&write_schema, &write_partitioning, exec);
                let result = match r {
                    Ok(proto) => Ok(
                        DistributedExecProto {
                            node: Some(
                                match exec.kind {
                                    NetworkKind::Shuffle =>
                                        DistributedExecNode::NetworkHashShuffle(proto),
                                    NetworkKind::Coalesce =>
                                        DistributedExecNode::NetworkCoalesceTasks(proto),
                                    NetworkKind::Broadcast =>
                                        DistributedExecNode::NetworkBroadcast(proto),
                                },
                            ),
                        },
                    ),
                    Err(e) => Err(e),
                };
                proof {
                    assert(message_result(exec.kind, r, result));
                }
                return result;
            },
            DistributedNode::PartitionIsolator(exec) => DistributedExecNode::PartitionIsolator(
                PartitionIsolatorExecProto { n_tasks: exec.n_tasks as u64 },
            ),
            DistributedNode::Broadcast(exec) => DistributedExecNode::Broadcast(
                BroadcastExecProto { consumer_task_count: exec.consumer_task_count as u64 },
            ),
            DistributedNode::ChildrenIsolatorUnion(exec) => {
                let task_idx_map = encode_runs(&exec.task_idx_map);
                DistributedExecNode::ChildrenIsolatorUnion(
                    ChildrenIsolatorUnionExecProto {
                        partition_count: exec.partition_count as u64,
                        task_idx_map,
                    },
                )
            },
            DistributedNode::Other { name } => {
                return Err(CodecError::Proto(ProtoError::UnexpectedPlan(name.clone())));
            },
        };
        Ok(DistributedExecProto { node: Some(message) })
    }
}

fn take_first<P>(inputs: Vec<InputPlan<P>>) -> (plan: Option<P>)
    ensures
        plan == first_plan(inputs@),
{
    let mut inputs = inputs;
    if inputs.len() == 0 {
        None
    } else {
        Some(inputs.swap_remove(0).plan)
    }
}

/// A stage arrives as it was sent, with the plan that came beside it, where its workers are in
/// normal form.
pub proof fn stages_survive_the_wire<P>(stage: StageView<P>, plan: Option<P>)
    requires
        stage.query_id.len() == 16,
        forall|i: int|
            0 <= i < stage.tasks.len() ==> (#[trigger] stage.tasks[i] matches Some(url)
                ==> parsed_url(url) == Some(url)),
    ensures
        decoded_stage(Some(encoded_stage(stage)), plan) == Ok::<_, ProtoErrorView>(
            StageView { plan, ..stage },
        ),
{
    lemma_normal_tasks(stage.tasks);
}

pub(crate) proof fn lemma_normal_tasks(tasks: Seq<Option<Seq<char>>>)
    requires
        forall|i: int|
            0 <= i < tasks.len() ==> (#[trigger] tasks[i] matches Some(url) ==> parsed_url(url)
                == Some(url)),
    ensures
        decoded_tasks(tasks) == Ok::<_, ProtoErrorView>(tasks),
    decreases tasks.len(),
{
    if tasks.len() == 0 {
        assert(tasks =~= Seq::empty());
    } else {
        let before = tasks.drop_last();
        assert forall|i: int| 0 <= i < before.len() implies (#[trigger] before[i] matches Some(url)
            ==> parsed_url(url) == Some(url)) by {
            assert(tasks[i] == before[i]);
        }
        lemma_normal_tasks(before);
        assert(tasks[tasks.len() - 1] == tasks.last());
        assert(before.push(tasks.last()) =~= tasks);
    }
}

/// The pieces that the tasks of a union run arrive as they were sent.
pub proof fn union_runs_survive_the_wire(runs: Seq<Seq<Slot>>)
    ensures
        decoded_runs(encoded_runs(runs)) == runs,
{
    assert forall|t: int| 0 <= t < runs.len() implies #[trigger] decoded_runs(encoded_runs(runs))[t]
        == runs[t] by {
        assert(decoded_runs(encoded_runs(runs))[t] =~= runs[t]);
    }
    assert(decoded_runs(encoded_runs(runs)) =~= runs);
}

/// Whether some plans are those that a node reads from, and the node is one that can be made: the
/// stage that it reads from has its workers in normal form, and its numbers are those of its kind.
pub open spec fn reads_from<Schema, Partitioning, P>(
    node: DistributedNode<Schema, Partitioning, P>,
    inputs: Seq<InputPlan<P>>,
) -> bool {
    match node {
        DistributedNode::Network(exec) => {
            &&& first_plan(inputs) == exec.input_stage.plan
            &&& exec.worker_connections == exec.input_stage.tasks@.len()
            &&& forall|i: int|
                0 <= i < exec.input_stage@.tasks.len() ==> (
                #[trigger] exec.input_stage@.tasks[i] matches Some(url) ==> parsed_url(url) == Some(
                    url,
                ))
        },
        DistributedNode::PartitionIsolator(exec) => {
            &&& partitions_of(inputs) == seq![exec.input_partitions]
            &&& exec.partition_count == group_of(
                exec.input_partitions as nat,
                exec.n_tasks as nat,
                0,
            ).len()
        },
        DistributedNode::Broadcast(exec) => partitions_of(inputs) == seq![exec.input_partitions],
        DistributedNode::ChildrenIsolatorUnion(exec) => partitions_of(inputs)
            == exec.child_partitions@,
        DistributedNode::Other { .. } => false,
    }
}

/// Whether two nodes are alike.
pub open spec fn same_node<Schema, Partitioning, P>(
    a: DistributedNode<Schema, Partitioning, P>,
    b: DistributedNode<Schema, Partitioning, P>,
) -> bool {
    match (a, b) {
        (DistributedNode::Network(a), DistributedNode::Network(b)) => {
            &&& a.kind == b.kind
            &&& a.schema == b.schema
            &&& a.partitioning == b.partitioning
            &&& a.input_stage@ == b.input_stage@
            &&& a.worker_connections == b.worker_connections
        },
        (
            DistributedNode::ChildrenIsolatorUnion(a),
            DistributedNode::ChildrenIsolatorUnion(b),
        ) => {
            &&& a.child_partitions@ == b.child_partitions@
            &&& a.partition_count == b.partition_count
            &&& a.runs() == b.runs()
        },
        _ => a == b,
    }
}

/// Every node that is sent arrives as it was, beside the plans that it reads from, where the query
/// engine reads back the schema and the partitioning that it wrote and unites plans that it has united
/// before.
pub proof fn nodes_survive_the_wire<
    SchemaProto,
    PartitioningProto,
    Schema,
    Partitioning,
    P,
    E,
    F,
    G,
    H,
    I,
    U,
>(
    write_schema: F,
    write_partitioning: G,
    parse_schema: H,
    parse_partitioning: I,
    unite: U,
    node: DistributedNode<Schema, Partitioning, P>,
    inputs: Vec<InputPlan<P>>,
    sent: Result<DistributedExecProto<SchemaProto, PartitioningProto>, CodecError<E>>,
    received: Result<DistributedNode<Schema, Partitioning, P>, CodecError<E>>,
) where
    F: Fn(&Schema) -> Result<SchemaProto, E>,
    G: Fn(&Partitioning) -> Result<PartitioningProto, E>,
    H: Fn(&SchemaProto) -> Result<Schema, E>,
    I: Fn(&Option<PartitioningProto>, &Schema) -> Result<Option<Partitioning>, E>,
    U: Fn(&Vec<InputPlan<P>>) -> Result<(), E>,

    requires
        reads_from(node, inputs@),
        sent is Ok,
        node_sent(write_schema, write_partitioning, node, sent),
        node_received(parse_schema, parse_partitioning, unite, sent->Ok_0, inputs, received),
        node matches DistributedNode::Network(exec) ==> forall|
            m: SchemaProto,
            s: Result<Schema, E>,
        |
            call_ensures(write_schema, (&exec.schema,), Ok::<SchemaProto, E>(m))
                && #[trigger] call_ensures(parse_schema, (&m,), s) ==> s == Ok::<Schema, E>(
                exec.schema,
            ),
        node matches DistributedNode::Network(exec) ==> forall|
            m: PartitioningProto,
            p: Result<Option<Partitioning>, E>,
        |
            call_ensures(write_partitioning, (&exec.partitioning,), Ok::<PartitioningProto, E>(m))
                && #[trigger] call_ensures(parse_partitioning, (&Some(m), &exec.schema), p) ==> p
                == Ok::<Option<Partitioning>, E>(Some(exec.partitioning)),
        node is ChildrenIsolatorUnion ==> forall|united: Result<(), E>| #[trigger]
            call_ensures(unite, (&inputs,), united) ==> united is Ok,
    ensures
        received matches Ok(arrived) && same_node(arrived, node),
{
    match node {
        DistributedNode::Network(exec) => {
            stages_survive_the_wire(exec.input_stage@, first_plan(inputs@));
            assert(exec.input_stage@ =~= StageView {
                plan: first_plan(inputs@),
                ..exec.input_stage@
            });
        },
        DistributedNode::ChildrenIsolatorUnion(exec) => {
            union_runs_survive_the_wire(exec.runs());
        },
        DistributedNode::PartitionIsolator(exec) => {
            assert(partitions_of(inputs@).len() == 1);
            assert(partitions_of(inputs@)[0] == exec.input_partitions);
        },
        DistributedNode::Broadcast(exec) => {
            assert(partitions_of(inputs@).len() == 1);
            assert(partitions_of(inputs@)[0] == exec.input_partitions);
        },
        DistributedNode::Other { .. } => {},
    }
}

/// The tasks of a list are read one by one: a task without a worker is one without, and a worker is read
/// as its URL in normal form. The first worker that is no URL, and no other, is named in the error.
pub proof fn tasks_are_read_one_by_one(tasks: Seq<Option<Seq<char>>>, i: int)
    requires
        0 <= i <= tasks.len(),
        forall|j: int|
            0 <= j < i ==> ((#[trigger] tasks[j]) matches Some(u) ==> parsed_url(u) is Some),
    ensures
        i < tasks.len() ==> (tasks[i] matches Some(u) ==> (parsed_url(u) is None ==> decoded_tasks(
            tasks,
        ) == Err::<Seq<Option<Seq<char>>>, ProtoErrorView>(ProtoErrorView::InvalidUrl(u)))),
        i == tasks.len() ==> (decoded_tasks(tasks) matches Ok(read) && read.len() == tasks.len()
            && forall|j: int|
            0 <= j < tasks.len() ==> #[trigger] read[j] == match tasks[j] {
                Some(u) => parsed_url(u),
                None => None,
            }),
    decreases tasks.len(),
{
    if tasks.len() > 0 {
        let front = tasks.drop_last();
        assert forall|j: int| 0 <= j < i && j < front.len() implies ((#[trigger] front[j]) matches Some(
            u,
        ) ==> parsed_url(u) is Some) by {
            assert(tasks[j] matches Some(u) ==> parsed_url(u) is Some);
        }
        if i < front.len() {
            tasks_are_read_one_by_one(front, i);
        } else {
            tasks_are_read_one_by_one(front, front.len() as int);
            assert(tasks[tasks.len() - 1] == tasks.last());
        }
    }
}

/// A stage is read from a message exactly if there is one, its query is named by as many bytes as a name
/// has and all its workers are URLs. The error is that of the first of these that fails.
pub proof fn incomplete_stages_are_refused<P>(proto: Option<StageProtoView>, plan: Option<P>)
    ensures
        proto is None ==> decoded_stage(proto, plan) == Err::<StageView<P>, ProtoErrorView>(
            ProtoErrorView::EmptyStage,
        ),
        proto matches Some(p) ==> (p.query_id.len() != 16 ==> decoded_stage(proto, plan) == Err::<
            StageView<P>,
            ProtoErrorView,
        >(ProtoErrorView::InvalidQueryId)),
        proto matches Some(p) ==> (p.query_id.len() == 16 ==> match decoded_tasks(p.tasks) {
            Err(e) => decoded_stage(proto, plan) == Err::<StageView<P>, ProtoErrorView>(e),
            Ok(tasks) => decoded_stage(proto, plan) matches Ok(stage) && stage.query_id
                == p.query_id && (p.num <= usize::MAX ==> stage.num == p.num) && stage.plan == plan
                && stage.tasks == tasks,
        }),
{
}

/// A node that reads from another stage is read only from a message that holds everything: a schema and a
/// partitioning that the query engine can read, and a stage. It reads from the tasks of that stage.
pub proof fn incomplete_nodes_are_refused<
    SchemaProto,
    PartitioningProto,
    Schema,
    Partitioning,
    P,
    E,
    F,
    G,
>(
    parse_schema: F,
    parse_partitioning: G,
    kind: NetworkKind,
    proto: NetworkExecProto<SchemaProto, PartitioningProto>,
    plan: Option<P>,
    exec: NetworkExec<Schema, Partitioning, P>,
) where
    F: Fn(&SchemaProto) -> Result<Schema, E>,
    G: Fn(&Option<PartitioningProto>, &Schema) -> Result<Option<Partitioning>, E>,

    requires
        network_received(
            parse_schema,
            parse_partitioning,
            kind,
            proto,
            plan,
            Ok::<_, CodecError<E>>(exec),
        ),
    ensures
        proto.schema matches Some(message) && call_ensures(
            parse_schema,
            (&message,),
            Ok::<Schema, E>(exec.schema),
        ),
        call_ensures(
            parse_partitioning,
            (&proto.partitioning, &exec.schema),
            Ok::<Option<Partitioning>, E>(Some(exec.partitioning)),
        ),
        proto.input_stage is Some,
        decoded_stage(stage_proto_view(proto.input_stage), plan) == Ok::<
            StageView<P>,
            ProtoErrorView,
        >(exec.input_stage@),
        exec.kind == kind,
        exec.worker_connections == exec.input_stage@.tasks.len(),
{
}

} // verus!
